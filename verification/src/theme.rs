//! Where a theme's text comes from.
//!
//! A theme is two blocks of custom-property declarations: one for a light surface and one for a
//! dark one. A theme in the configuration directory reaches the interface through exactly the
//! same type as a built-in one, so nothing downstream knows the difference. Reading the files is
//! the caller's part.

use vstd::prelude::*;

use crate::text::{in_text_order, owned, sort_texts, strip_suffix, views_of, without_suffix};

verus! {

/// The declarations one theme lays over the base token set, for both surfaces.
#[derive(Clone, Debug)]
pub struct ThemeSource {
    /// How the theme is written in the configuration file.
    pub name: String,
    /// The declarations in force on a light surface.
    pub light: String,
    /// The declarations in force on a dark surface.
    pub dark: String,
}

impl ThemeSource {
    /// A theme from two blocks of declarations.
    pub fn new(name: &str, light: &str, dark: &str) -> (out: ThemeSource)
        ensures
            out.name@ == name@,
            out.light@ == light@,
            out.dark@ == dark@,
    {
        ThemeSource { name: owned(name), light: owned(light), dark: owned(dark) }
    }
}

/// Every built-in theme, as it is written in the configuration file and as it is offered, in the
/// order they are offered.
pub open spec fn builtins() -> Seq<(Seq<char>, Seq<char>)> {
    seq![
        ("oldworld"@, "Oldworld"@),
        ("vesper"@, "Vesper"@),
        ("rose-pine"@, "Rosé Pine"@),
        ("catppuccin"@, "Catppuccin"@),
        ("tokyonight"@, "Tokyo Night"@),
        ("gruvbox"@, "Gruvbox"@),
    ]
}

/// The name and label of every built-in theme, in the order they are offered.
pub fn builtin_theme_names() -> (out: Vec<(&'static str, &'static str)>)
    ensures
        out@.map_values(|p: (&'static str, &'static str)| (p.0@, p.1@)) == builtins(),
{
    let mut out: Vec<(&'static str, &'static str)> = Vec::new();
    out.push(("oldworld", "Oldworld"));
    out.push(("vesper", "Vesper"));
    out.push(("rose-pine", "Rosé Pine"));
    out.push(("catppuccin", "Catppuccin"));
    out.push(("tokyonight", "Tokyo Night"));
    out.push(("gruvbox", "Gruvbox"));
    assert(out@.map_values(|p: (&'static str, &'static str)| (p.0@, p.1@)) =~= builtins());
    out
}

/// The theme a file in the themes directory belongs to: `<name>-light.css` and `<name>-dark.css`
/// are both theme `<name>`.
pub open spec fn theme_of_file(file: Seq<char>) -> Option<Seq<char>> {
    match without_suffix(file, "-light.css"@) {
        Some(stem) => Some(stem),
        None => without_suffix(file, "-dark.css"@),
    }
}

/// The themes named by the built-ins and then by `files`, each once, in the order first met.
pub open spec fn theme_list(files: Seq<Seq<char>>) -> Seq<Seq<char>>
    decreases files.len(),
{
    if files.len() == 0 {
        builtins().map_values(|p: (Seq<char>, Seq<char>)| p.0)
    } else {
        let prior = theme_list(files.drop_last());
        match theme_of_file(files.last()) {
            Some(stem) => if prior.contains(stem) {
                prior
            } else {
                prior.push(stem)
            },
            None => prior,
        }
    }
}

/// Every theme that can be switched to, given the names of the files in the themes directory:
/// the built-in ones and those the files name, each once, in order.
///
/// A name in the directory replaces a built-in one rather than adding a second.
pub fn theme_names(files: &[String]) -> (out: Vec<String>)
    ensures
        in_text_order(views_of(out@)),
        views_of(out@).to_multiset() == theme_list(views_of(files@)).to_multiset(),
{
    let builtin = builtin_theme_names();
    let mut names: Vec<String> = Vec::new();
    let mut i: usize = 0;
    while i < builtin.len()
        invariant
            i <= builtin@.len(),
            builtin@.map_values(|p: (&'static str, &'static str)| (p.0@, p.1@)) == builtins(),
            views_of(names@) == builtins().map_values(|p: (Seq<char>, Seq<char>)| p.0).take(i as int),
        decreases builtin.len() - i,
    {
        let ghost before = names@;
        let name = owned(builtin[i].0);
        names.push(name);
        assert(builtins()[i as int].0 == builtin@[i as int].0@);
        assert(views_of(names@) =~= views_of(before).push(name@));
        assert(views_of(names@) =~= builtins().map_values(|p: (Seq<char>, Seq<char>)| p.0).take(i + 1));
        i = i + 1;
    }
    assert(builtins().map_values(|p: (Seq<char>, Seq<char>)| p.0).take(i as int) =~= theme_list(views_of(files@).take(0)));
    let ghost fv = views_of(files@);
    let mut k: usize = 0;
    while k < files.len()
        invariant
            k <= files@.len(),
            fv == views_of(files@),
            views_of(names@) == theme_list(fv.take(k as int)),
        decreases files.len() - k,
    {
        assert(fv.take(k + 1).drop_last() =~= fv.take(k as int));
        assert(fv.take(k + 1).last() == files@[k as int]@);
        let file = files[k].as_str();
        let stem = match strip_suffix(file, "-light.css") {
            Some(stem) => Some(stem),
            None => strip_suffix(file, "-dark.css"),
        };
        if let Some(stem) = stem {
            let mut held = false;
            let mut j: usize = 0;
            while j < names.len()
                invariant
                    j <= names@.len(),
                    held == exists|m: int| 0 <= m < j && names@[m]@ == stem@,
                decreases names.len() - j,
            {
                if crate::text::same_text(names[j].as_str(), stem.as_str()) {
                    held = true;
                }
                j = j + 1;
            }
            proof {
                let prior = views_of(names@);
                if held {
                    let m = choose|m: int| 0 <= m < names@.len() && names@[m]@ == stem@;
                    assert(prior[m] == stem@);
                } else {
                    assert(!prior.contains(stem@)) by {
                        if prior.contains(stem@) {
                            let m = choose|m: int| 0 <= m < prior.len() && prior[m] == stem@;
                            assert(names@[m]@ == stem@);
                        }
                    }
                }
            }
            if !held {
                let ghost prior = views_of(names@);
                names.push(stem);
                assert(views_of(names@) =~= prior.push(stem@));
            }
        }
        k = k + 1;
    }
    assert(fv.take(files@.len() as int) =~= fv);
    sort_texts(names)
}

/// A theme read from a directory, given what its light and dark files held.
///
/// A surface whose file is missing falls back to the other one, so a person who only cares
/// about dark writes one file. A theme with neither file is not a theme.
pub fn theme_from_files(name: &str, light: Option<String>, dark: Option<String>) -> (out: Option<ThemeSource>)
    ensures
        (light is None && dark is None) <==> out is None,
        out matches Some(theme) ==> theme.name@ == name@ && theme.light@ == (match light {
            Some(l) => l@,
            None => dark.unwrap()@,
        }) && theme.dark@ == (match dark {
            Some(d) => d@,
            None => light.unwrap()@,
        }),
{
    match (light, dark) {
        (None, None) => None,
        (Some(light), Some(dark)) => Some(ThemeSource { name: owned(name), light, dark }),
        (Some(light), None) => Some(ThemeSource { name: owned(name), light: light.clone(), dark: light }),
        (None, Some(dark)) => Some(ThemeSource { name: owned(name), light: dark.clone(), dark }),
    }
}

/// The theme to use: the one from the configuration directory when there is one, else the
/// built-in of the same name.
pub fn resolve_theme(from_dir: Option<ThemeSource>, builtin: Option<ThemeSource>) -> (out: Option<ThemeSource>)
    ensures
        out == if from_dir is Some { from_dir } else { builtin },
{
    match from_dir {
        Some(theme) => Some(theme),
        None => builtin,
    }
}

} // verus!
