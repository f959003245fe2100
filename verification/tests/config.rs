use zdt::config::directory_from;
use zdt::config::{
    directory, expand_home, expand_home_with, shorten_home, shorten_home_with, Keys, Leap,
    LineNumbers, Paths, Picker, Scheme, Tree,
};

fn home() -> Option<String> {
    dirs::home_dir().map(|home| home.to_string_lossy().into_owned())
}

#[test]
fn a_leading_tilde_becomes_the_home_directory() {
    let Some(home) = home() else {
        return;
    };
    assert_eq!(expand_home("~/Projects"), format!("{home}/Projects"));
    assert_eq!(expand_home("~"), home);
}

#[test]
fn a_home_path_is_written_back_with_a_tilde() {
    let Some(home) = home() else {
        return;
    };
    assert_eq!(shorten_home(&format!("{home}/Projects")), "~/Projects");
    assert_eq!(shorten_home(&home), "~");
    assert_eq!(shorten_home("/etc"), "/etc");
}

#[test]
fn a_tilde_that_is_part_of_a_name_is_left_alone() {
    assert_eq!(expand_home("~stuff"), "~stuff");
    assert_eq!(expand_home("/tmp/~/x"), "/tmp/~/x");
}

#[test]
fn the_home_directory_is_what_it_is_told() {
    assert_eq!(expand_home_with("~/a/b", Some("/home/me")), "/home/me/a/b");
    assert_eq!(expand_home_with("~", Some("/home/me")), "/home/me");
    assert_eq!(expand_home_with("~/a", None), "~/a");
    assert_eq!(shorten_home_with("/home/me/a/b", Some("/home/me")), "~/a/b");
    assert_eq!(shorten_home_with("/home/meow", Some("/home/me")), "/home/meow");
    assert_eq!(shorten_home_with("/home/me", None), "/home/me");
}

#[test]
fn the_paths_are_where_they_are_expected() {
    let paths = Paths::at("/home/someone/.config/zdt");
    assert!(paths.config().ends_with("config.toml"));
    assert!(paths.keymap().ends_with("keymap.toml"));
    assert!(paths.tree_keymap().ends_with("keymap-tree.toml"));
    assert!(paths.user_css().ends_with("user.css"));
    assert!(paths.themes().ends_with("themes"));
    assert_eq!(paths.watched().len(), 5);
    assert_eq!(paths.config(), "/home/someone/.config/zdt/config.toml");
    assert_eq!(paths.grammars(), "/home/someone/.config/zdt/grammars");
    assert_eq!(paths.queries(), "/home/someone/.config/zdt/queries");
}

#[test]
fn mod_the_directory_can_be_told_where_to_be() {
    assert_eq!(
        directory(Some("/tmp/zdt-elsewhere".to_string())),
        Some("/tmp/zdt-elsewhere".to_string())
    );
    let paths = Paths::discover(Some("/tmp/zdt-elsewhere".to_string())).expect("named");
    assert_eq!(paths.root, "/tmp/zdt-elsewhere");
}

#[test]
fn the_defaults_are_the_documented_ones() {
    assert_eq!(Scheme::default(), Scheme::Dark);
    assert_eq!(LineNumbers::default(), LineNumbers::Relative);
    let picker = Picker::default();
    assert!(picker.preview);
    assert!(picker.smart_case);
    let tree = Tree::default();
    assert!(!tree.hidden);
    assert_eq!(Leap::default().alphabet, "sfnjklhodweimbuyvrgtaqpcxz");
    assert_eq!(Keys::default().leader, "<Space>");
    assert_eq!(Keys::default().local_leader, ",");
}

#[test]
fn the_shipped_servers_are_the_four_in_name_order() {
    let servers = zdt::config::shipped_servers();
    let names: Vec<&str> = servers.iter().map(|server| server.name.as_str()).collect();
    assert_eq!(names, ["basedpyright", "gopls", "lua-language-server", "rust-analyzer"]);
    assert_eq!(servers[0].args, ["--stdio"]);
    assert_eq!(servers[3].filetypes, ["rust"]);
    assert_eq!(servers[3].root_markers, ["Cargo.toml", "rust-project.json"]);
}

#[test]
fn a_home_path_reads_back_as_it_was_written() {
    for written in ["~", "~/Projects", "~/a/b c/d"] {
        let expanded = expand_home_with(written, Some("/home/me"));
        assert_eq!(shorten_home_with(&expanded, Some("/home/me")), written);
    }
}

#[test]
fn the_configuration_directory_is_the_variable_else_zdt_under_the_platforms() {
    assert_eq!(
        directory_from(Some("/custom".to_string()), Some("/home/u/.config".to_string())),
        Some("/custom".to_string())
    );
    assert_eq!(
        directory_from(None, Some("/home/u/.config".to_string())),
        Some("/home/u/.config/zdt".to_string())
    );
    assert_eq!(directory_from(None, None), None);
}
