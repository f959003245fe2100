//! What a file is, from its name.
//!
//! Two answers come from one table: which grammar highlights it, and which glyph stands for it in
//! the tree and on its buffer tab. They are together because they are decided by the same thing
//! and would otherwise drift: a file type that highlights but has no icon looks like a bug, and
//! one with an icon that does not highlight looks like a worse one.
//!
//! Glyphs are from a Nerd Font, written as escapes so that this file is readable in an editor that
//! has not got one. The tint is a token name the style sheet answers for.

use vstd::prelude::*;

use crate::names::{extension, extension_of, file_name, file_name_of};
use crate::text::chars_of;

verus! {

/// What one kind of file is called, drawn as, and highlighted by.
#[derive(Clone, Copy, Debug)]
pub struct FileType {
    /// The grammar's name in the editor's registry, when there is one.
    pub language: Option<&'static str>,
    /// The glyph that stands for it.
    pub glyph: &'static str,
    /// The custom property its glyph is drawn with, without the leading dashes.
    pub tint: &'static str,
}

impl View for FileType {
    type V = (Option<Seq<char>>, Seq<char>, Seq<char>);

    open spec fn view(&self) -> (Option<Seq<char>>, Seq<char>, Seq<char>) {
        (
            match self.language {
                Some(l) => Some(l@),
                None => None,
            },
            self.glyph@,
            self.tint@,
        )
    }
}

/// What a file with no rule for it is.
pub open spec fn unknown_kind() -> (Option<Seq<char>>, Seq<char>, Seq<char>) {
    (None, "\u{f15b}"@, "zui-color-muted-foreground"@)
}

/// What a file with no rule for it is.
pub fn unknown() -> (out: FileType)
    ensures
        out@ == unknown_kind(),
{
    FileType { language: None, glyph: "\u{f15b}", tint: "zui-color-muted-foreground" }
}

/// A directory, closed.
pub open spec fn directory_kind() -> (Option<Seq<char>>, Seq<char>, Seq<char>) {
    (None, "\u{f07b}"@, "zui-color-primary"@)
}

/// A directory, closed.
pub fn directory() -> (out: FileType)
    ensures
        out@ == directory_kind(),
{
    FileType { language: None, glyph: "\u{f07b}", tint: "zui-color-primary" }
}

/// A directory, open.
pub fn directory_open() -> (out: FileType)
    ensures
        out@ == (None::<Seq<char>>, "\u{f07c}"@, "zui-color-primary"@),
{
    FileType { language: None, glyph: "\u{f07c}", tint: "zui-color-primary" }
}

/// What a terminal buffer shows on the buffer line.
pub fn terminal() -> (out: FileType)
    ensures
        out@ == (None::<Seq<char>>, "\u{f489}"@, "zui-color-muted-foreground"@),
{
    FileType { language: None, glyph: "\u{f489}", tint: "zui-color-muted-foreground" }
}

/// Whether `a` and `b` are the same text.
fn same(a: &str, b: &str) -> (out: bool)
    ensures
        out == (a@ == b@),
{
    let x = chars_of(a);
    let y = chars_of(b);
    if x.len() != y.len() {
        return false;
    }
    let mut i: usize = 0;
    while i < x.len()
        invariant
            i <= x@.len(),
            x@.len() == y@.len(),
            x@ == a@,
            y@ == b@,
            forall|j: int| 0 <= j < i ==> x@[j] == y@[j],
        decreases x.len() - i,
    {
        if x[i] != y[i] {
            return false;
        }
        i = i + 1;
    }
    assert(x@ =~= y@);
    true
}

/// `text` with its ASCII capitals made small.
pub open spec fn ascii_lower(text: Seq<char>) -> Seq<char> {
    text.map_values(|c: char| if 'A' <= c && c <= 'Z' { ((c as u32) + 32) as char } else { c })
}

/// `text` with its ASCII capitals made small.
pub fn lowered_text(text: &str) -> (out: String)
    ensures
        out@ == ascii_lower(text@),
{
    lowered(text)
}

/// `text` with its ASCII capitals made small.
fn lowered(text: &str) -> (out: String)
    ensures
        out@ == ascii_lower(text@),
{
    let cs = chars_of(text);
    let mut out: Vec<char> = Vec::new();
    let mut i: usize = 0;
    while i < cs.len()
        invariant
            i <= cs@.len(),
            cs@ == text@,
            out@ == ascii_lower(cs@).take(i as int),
        decreases cs.len() - i,
    {
        let c = cs[i];
        let small = if 'A' <= c && c <= 'Z' {
            let n = (c as u8) + 32;
            n as char
        } else {
            c
        };
        out.push(small);
        assert(out@ =~= ascii_lower(cs@).take(i + 1));
        i = i + 1;
    }
    assert(ascii_lower(cs@).take(cs@.len() as int) =~= ascii_lower(cs@));
    crate::text::string_of(out.as_slice())
}

/// What a file ending in each known extension is: its grammar, glyph and tint.
pub open spec fn by_extension(key: Seq<char>) -> Option<(Option<Seq<char>>, Seq<char>, Seq<char>)> {
    if key == "rs"@ {
        Some((Some("rust"@), "\u{e7a8}"@, "zdt-icon-rust"@))
    } else if key == "toml"@ {
        Some((Some("toml"@), "\u{e6b2}"@, "zdt-icon-config"@))
    } else if key == "md"@ {
        Some((Some("markdown"@), "\u{e73e}"@, "zdt-icon-doc"@))
    } else if key == "markdown"@ {
        Some((Some("markdown"@), "\u{e73e}"@, "zdt-icon-doc"@))
    } else if key == "json"@ {
        Some((Some("json"@), "\u{e60b}"@, "zdt-icon-config"@))
    } else if key == "jsonc"@ {
        Some((Some("json"@), "\u{e60b}"@, "zdt-icon-config"@))
    } else if key == "yaml"@ {
        Some((Some("yaml"@), "\u{e615}"@, "zdt-icon-config"@))
    } else if key == "yml"@ {
        Some((Some("yaml"@), "\u{e615}"@, "zdt-icon-config"@))
    } else if key == "py"@ {
        Some((Some("python"@), "\u{e73c}"@, "zdt-icon-python"@))
    } else if key == "pyi"@ {
        Some((Some("python"@), "\u{e73c}"@, "zdt-icon-python"@))
    } else if key == "ts"@ {
        Some((Some("typescript"@), "\u{e628}"@, "zdt-icon-ts"@))
    } else if key == "tsx"@ {
        Some((Some("tsx"@), "\u{e7ba}"@, "zdt-icon-ts"@))
    } else if key == "js"@ {
        Some((Some("javascript"@), "\u{e781}"@, "zdt-icon-js"@))
    } else if key == "jsx"@ {
        Some((Some("javascript"@), "\u{e7ba}"@, "zdt-icon-js"@))
    } else if key == "mjs"@ {
        Some((Some("javascript"@), "\u{e781}"@, "zdt-icon-js"@))
    } else if key == "go"@ {
        Some((Some("go"@), "\u{e627}"@, "zdt-icon-go"@))
    } else if key == "c"@ {
        Some((Some("c"@), "\u{e61e}"@, "zdt-icon-c"@))
    } else if key == "h"@ {
        Some((Some("c"@), "\u{e61e}"@, "zdt-icon-c"@))
    } else if key == "cpp"@ {
        Some((Some("cpp"@), "\u{e61d}"@, "zdt-icon-c"@))
    } else if key == "cc"@ {
        Some((Some("cpp"@), "\u{e61d}"@, "zdt-icon-c"@))
    } else if key == "hpp"@ {
        Some((Some("cpp"@), "\u{e61d}"@, "zdt-icon-c"@))
    } else if key == "lua"@ {
        Some((Some("lua"@), "\u{e620}"@, "zdt-icon-lua"@))
    } else if key == "sh"@ {
        Some((Some("bash"@), "\u{f489}"@, "zdt-icon-shell"@))
    } else if key == "bash"@ {
        Some((Some("bash"@), "\u{f489}"@, "zdt-icon-shell"@))
    } else if key == "zsh"@ {
        Some((Some("bash"@), "\u{f489}"@, "zdt-icon-shell"@))
    } else if key == "fish"@ {
        Some((Some("bash"@), "\u{f489}"@, "zdt-icon-shell"@))
    } else if key == "html"@ {
        Some((Some("html"@), "\u{e736}"@, "zdt-icon-html"@))
    } else if key == "css"@ {
        Some((Some("css"@), "\u{e749}"@, "zdt-icon-css"@))
    } else if key == "scss"@ {
        Some((Some("css"@), "\u{e749}"@, "zdt-icon-css"@))
    } else if key == "txt"@ {
        Some((None, "\u{f15c}"@, "zui-color-muted-foreground"@))
    } else if key == "lock"@ {
        Some((None, "\u{f023}"@, "zui-color-muted-foreground"@))
    } else if key == "png"@ {
        Some((None, "\u{f1c5}"@, "zdt-icon-image"@))
    } else if key == "jpg"@ {
        Some((None, "\u{f1c5}"@, "zdt-icon-image"@))
    } else if key == "jpeg"@ {
        Some((None, "\u{f1c5}"@, "zdt-icon-image"@))
    } else if key == "svg"@ {
        Some((None, "\u{f1c5}"@, "zdt-icon-image"@))
    } else if key == "gif"@ {
        Some((None, "\u{f1c5}"@, "zdt-icon-image"@))
    } else if key == "webp"@ {
        Some((None, "\u{f1c5}"@, "zdt-icon-image"@))
    } else {
        None
    }
}

/// Whole names that decide a file's type on their own, whatever they end in.
pub open spec fn by_name(key: Seq<char>) -> Option<(Option<Seq<char>>, Seq<char>, Seq<char>)> {
    if key == "Cargo.lock"@ {
        Some((Some("toml"@), "\u{e7a8}"@, "zui-color-muted-foreground"@))
    } else if key == "Makefile"@ {
        Some((None, "\u{e673}"@, "zdt-icon-config"@))
    } else if key == "Dockerfile"@ {
        Some((None, "\u{f308}"@, "zdt-icon-config"@))
    } else if key == ".gitignore"@ {
        Some((None, "\u{e702}"@, "zdt-icon-git"@))
    } else if key == ".gitmodules"@ {
        Some((None, "\u{e702}"@, "zdt-icon-git"@))
    } else if key == "LICENSE"@ {
        Some((None, "\u{f718}"@, "zui-color-muted-foreground"@))
    } else {
        None
    }
}

/// The row of the extension table for `key`.
fn extension_kind(key: &str) -> (out: Option<FileType>)
    ensures
        match out {
            Some(k) => by_extension(key@) == Some(k.view()),
            None => by_extension(key@) is None,
        },
{
    if same(key, "rs") {
        return Some(FileType { language: Some("rust"), glyph: "\u{e7a8}", tint: "zdt-icon-rust" });
    }
    if same(key, "toml") {
        return Some(FileType { language: Some("toml"), glyph: "\u{e6b2}", tint: "zdt-icon-config" });
    }
    if same(key, "md") {
        return Some(FileType { language: Some("markdown"), glyph: "\u{e73e}", tint: "zdt-icon-doc" });
    }
    if same(key, "markdown") {
        return Some(FileType { language: Some("markdown"), glyph: "\u{e73e}", tint: "zdt-icon-doc" });
    }
    if same(key, "json") {
        return Some(FileType { language: Some("json"), glyph: "\u{e60b}", tint: "zdt-icon-config" });
    }
    if same(key, "jsonc") {
        return Some(FileType { language: Some("json"), glyph: "\u{e60b}", tint: "zdt-icon-config" });
    }
    if same(key, "yaml") {
        return Some(FileType { language: Some("yaml"), glyph: "\u{e615}", tint: "zdt-icon-config" });
    }
    if same(key, "yml") {
        return Some(FileType { language: Some("yaml"), glyph: "\u{e615}", tint: "zdt-icon-config" });
    }
    if same(key, "py") {
        return Some(FileType { language: Some("python"), glyph: "\u{e73c}", tint: "zdt-icon-python" });
    }
    if same(key, "pyi") {
        return Some(FileType { language: Some("python"), glyph: "\u{e73c}", tint: "zdt-icon-python" });
    }
    if same(key, "ts") {
        return Some(FileType { language: Some("typescript"), glyph: "\u{e628}", tint: "zdt-icon-ts" });
    }
    if same(key, "tsx") {
        return Some(FileType { language: Some("tsx"), glyph: "\u{e7ba}", tint: "zdt-icon-ts" });
    }
    if same(key, "js") {
        return Some(FileType { language: Some("javascript"), glyph: "\u{e781}", tint: "zdt-icon-js" });
    }
    if same(key, "jsx") {
        return Some(FileType { language: Some("javascript"), glyph: "\u{e7ba}", tint: "zdt-icon-js" });
    }
    if same(key, "mjs") {
        return Some(FileType { language: Some("javascript"), glyph: "\u{e781}", tint: "zdt-icon-js" });
    }
    if same(key, "go") {
        return Some(FileType { language: Some("go"), glyph: "\u{e627}", tint: "zdt-icon-go" });
    }
    if same(key, "c") {
        return Some(FileType { language: Some("c"), glyph: "\u{e61e}", tint: "zdt-icon-c" });
    }
    if same(key, "h") {
        return Some(FileType { language: Some("c"), glyph: "\u{e61e}", tint: "zdt-icon-c" });
    }
    if same(key, "cpp") {
        return Some(FileType { language: Some("cpp"), glyph: "\u{e61d}", tint: "zdt-icon-c" });
    }
    if same(key, "cc") {
        return Some(FileType { language: Some("cpp"), glyph: "\u{e61d}", tint: "zdt-icon-c" });
    }
    if same(key, "hpp") {
        return Some(FileType { language: Some("cpp"), glyph: "\u{e61d}", tint: "zdt-icon-c" });
    }
    if same(key, "lua") {
        return Some(FileType { language: Some("lua"), glyph: "\u{e620}", tint: "zdt-icon-lua" });
    }
    if same(key, "sh") {
        return Some(FileType { language: Some("bash"), glyph: "\u{f489}", tint: "zdt-icon-shell" });
    }
    if same(key, "bash") {
        return Some(FileType { language: Some("bash"), glyph: "\u{f489}", tint: "zdt-icon-shell" });
    }
    if same(key, "zsh") {
        return Some(FileType { language: Some("bash"), glyph: "\u{f489}", tint: "zdt-icon-shell" });
    }
    if same(key, "fish") {
        return Some(FileType { language: Some("bash"), glyph: "\u{f489}", tint: "zdt-icon-shell" });
    }
    if same(key, "html") {
        return Some(FileType { language: Some("html"), glyph: "\u{e736}", tint: "zdt-icon-html" });
    }
    if same(key, "css") {
        return Some(FileType { language: Some("css"), glyph: "\u{e749}", tint: "zdt-icon-css" });
    }
    if same(key, "scss") {
        return Some(FileType { language: Some("css"), glyph: "\u{e749}", tint: "zdt-icon-css" });
    }
    if same(key, "txt") {
        return Some(FileType { language: None, glyph: "\u{f15c}", tint: "zui-color-muted-foreground" });
    }
    if same(key, "lock") {
        return Some(FileType { language: None, glyph: "\u{f023}", tint: "zui-color-muted-foreground" });
    }
    if same(key, "png") {
        return Some(FileType { language: None, glyph: "\u{f1c5}", tint: "zdt-icon-image" });
    }
    if same(key, "jpg") {
        return Some(FileType { language: None, glyph: "\u{f1c5}", tint: "zdt-icon-image" });
    }
    if same(key, "jpeg") {
        return Some(FileType { language: None, glyph: "\u{f1c5}", tint: "zdt-icon-image" });
    }
    if same(key, "svg") {
        return Some(FileType { language: None, glyph: "\u{f1c5}", tint: "zdt-icon-image" });
    }
    if same(key, "gif") {
        return Some(FileType { language: None, glyph: "\u{f1c5}", tint: "zdt-icon-image" });
    }
    if same(key, "webp") {
        return Some(FileType { language: None, glyph: "\u{f1c5}", tint: "zdt-icon-image" });
    }
    None
}

/// The row of the name table for `key`.
fn name_kind(key: &str) -> (out: Option<FileType>)
    ensures
        match out {
            Some(k) => by_name(key@) == Some(k.view()),
            None => by_name(key@) is None,
        },
{
    if same(key, "Cargo.lock") {
        return Some(FileType { language: Some("toml"), glyph: "\u{e7a8}", tint: "zui-color-muted-foreground" });
    }
    if same(key, "Makefile") {
        return Some(FileType { language: None, glyph: "\u{e673}", tint: "zdt-icon-config" });
    }
    if same(key, "Dockerfile") {
        return Some(FileType { language: None, glyph: "\u{f308}", tint: "zdt-icon-config" });
    }
    if same(key, ".gitignore") {
        return Some(FileType { language: None, glyph: "\u{e702}", tint: "zdt-icon-git" });
    }
    if same(key, ".gitmodules") {
        return Some(FileType { language: None, glyph: "\u{e702}", tint: "zdt-icon-git" });
    }
    if same(key, "LICENSE") {
        return Some(FileType { language: None, glyph: "\u{f718}", tint: "zui-color-muted-foreground" });
    }
    None
}


/// What a file ending in `extension` is, in whatever case it is written.
pub open spec fn kind_of_extension(extension: Seq<char>) -> Option<(Option<Seq<char>>, Seq<char>, Seq<char>)> {
    by_extension(ascii_lower(extension))
}

/// A file ending in `.rs` is highlighted as rust.
proof fn lemma_extension_rs(extension: Seq<char>)
    requires
        ascii_lower(extension) == "rs"@,
    ensures
        kind_of_extension(extension) is Some && kind_of_extension(extension).unwrap().0 == Some("rust"@),
{
    reveal_strlit("rs");
    reveal_strlit("rust");
}

/// A file ending in `.toml` is highlighted as toml.
proof fn lemma_extension_toml(extension: Seq<char>)
    requires
        ascii_lower(extension) == "toml"@,
    ensures
        kind_of_extension(extension) is Some && kind_of_extension(extension).unwrap().0 == Some("toml"@),
{
    reveal_strlit("toml");
    reveal_strlit("rs");
    assert("toml"@.len() != "rs"@.len());
    assert("toml"@ != "rs"@);
    reveal_strlit("toml");
}

/// A file ending in `.md` is highlighted as markdown.
proof fn lemma_extension_md(extension: Seq<char>)
    requires
        ascii_lower(extension) == "md"@,
    ensures
        kind_of_extension(extension) is Some && kind_of_extension(extension).unwrap().0 == Some("markdown"@),
{
    reveal_strlit("md");
    reveal_strlit("rs");
    assert("md"@[0] != "rs"@[0]);
    assert("md"@ != "rs"@);
    reveal_strlit("toml");
    assert("md"@.len() != "toml"@.len());
    assert("md"@ != "toml"@);
    reveal_strlit("markdown");
}

/// A file ending in `.markdown` is highlighted as markdown.
proof fn lemma_extension_markdown(extension: Seq<char>)
    requires
        ascii_lower(extension) == "markdown"@,
    ensures
        kind_of_extension(extension) is Some && kind_of_extension(extension).unwrap().0 == Some("markdown"@),
{
    reveal_strlit("markdown");
    reveal_strlit("rs");
    assert("markdown"@.len() != "rs"@.len());
    assert("markdown"@ != "rs"@);
    reveal_strlit("toml");
    assert("markdown"@.len() != "toml"@.len());
    assert("markdown"@ != "toml"@);
    reveal_strlit("md");
    assert("markdown"@.len() != "md"@.len());
    assert("markdown"@ != "md"@);
    reveal_strlit("markdown");
}

/// A file ending in `.json` is highlighted as json.
proof fn lemma_extension_json(extension: Seq<char>)
    requires
        ascii_lower(extension) == "json"@,
    ensures
        kind_of_extension(extension) is Some && kind_of_extension(extension).unwrap().0 == Some("json"@),
{
    reveal_strlit("json");
    reveal_strlit("rs");
    assert("json"@.len() != "rs"@.len());
    assert("json"@ != "rs"@);
    reveal_strlit("toml");
    assert("json"@[0] != "toml"@[0]);
    assert("json"@ != "toml"@);
    reveal_strlit("md");
    assert("json"@.len() != "md"@.len());
    assert("json"@ != "md"@);
    reveal_strlit("markdown");
    assert("json"@.len() != "markdown"@.len());
    assert("json"@ != "markdown"@);
    reveal_strlit("json");
}

/// A file ending in `.jsonc` is highlighted as json.
proof fn lemma_extension_jsonc(extension: Seq<char>)
    requires
        ascii_lower(extension) == "jsonc"@,
    ensures
        kind_of_extension(extension) is Some && kind_of_extension(extension).unwrap().0 == Some("json"@),
{
    reveal_strlit("jsonc");
    reveal_strlit("rs");
    assert("jsonc"@.len() != "rs"@.len());
    assert("jsonc"@ != "rs"@);
    reveal_strlit("toml");
    assert("jsonc"@.len() != "toml"@.len());
    assert("jsonc"@ != "toml"@);
    reveal_strlit("md");
    assert("jsonc"@.len() != "md"@.len());
    assert("jsonc"@ != "md"@);
    reveal_strlit("markdown");
    assert("jsonc"@.len() != "markdown"@.len());
    assert("jsonc"@ != "markdown"@);
    reveal_strlit("json");
    assert("jsonc"@.len() != "json"@.len());
    assert("jsonc"@ != "json"@);
    reveal_strlit("json");
}

/// A file ending in `.yaml` is highlighted as yaml.
proof fn lemma_extension_yaml(extension: Seq<char>)
    requires
        ascii_lower(extension) == "yaml"@,
    ensures
        kind_of_extension(extension) is Some && kind_of_extension(extension).unwrap().0 == Some("yaml"@),
{
    reveal_strlit("yaml");
    reveal_strlit("rs");
    assert("yaml"@.len() != "rs"@.len());
    assert("yaml"@ != "rs"@);
    reveal_strlit("toml");
    assert("yaml"@[0] != "toml"@[0]);
    assert("yaml"@ != "toml"@);
    reveal_strlit("md");
    assert("yaml"@.len() != "md"@.len());
    assert("yaml"@ != "md"@);
    reveal_strlit("markdown");
    assert("yaml"@.len() != "markdown"@.len());
    assert("yaml"@ != "markdown"@);
    reveal_strlit("json");
    assert("yaml"@[0] != "json"@[0]);
    assert("yaml"@ != "json"@);
    reveal_strlit("jsonc");
    assert("yaml"@.len() != "jsonc"@.len());
    assert("yaml"@ != "jsonc"@);
    reveal_strlit("yaml");
}

/// A file ending in `.yml` is highlighted as yaml.
proof fn lemma_extension_yml(extension: Seq<char>)
    requires
        ascii_lower(extension) == "yml"@,
    ensures
        kind_of_extension(extension) is Some && kind_of_extension(extension).unwrap().0 == Some("yaml"@),
{
    reveal_strlit("yml");
    reveal_strlit("rs");
    assert("yml"@.len() != "rs"@.len());
    assert("yml"@ != "rs"@);
    reveal_strlit("toml");
    assert("yml"@.len() != "toml"@.len());
    assert("yml"@ != "toml"@);
    reveal_strlit("md");
    assert("yml"@.len() != "md"@.len());
    assert("yml"@ != "md"@);
    reveal_strlit("markdown");
    assert("yml"@.len() != "markdown"@.len());
    assert("yml"@ != "markdown"@);
    reveal_strlit("json");
    assert("yml"@.len() != "json"@.len());
    assert("yml"@ != "json"@);
    reveal_strlit("jsonc");
    assert("yml"@.len() != "jsonc"@.len());
    assert("yml"@ != "jsonc"@);
    reveal_strlit("yaml");
    assert("yml"@.len() != "yaml"@.len());
    assert("yml"@ != "yaml"@);
    reveal_strlit("yaml");
}

/// A file ending in `.py` is highlighted as python.
proof fn lemma_extension_py(extension: Seq<char>)
    requires
        ascii_lower(extension) == "py"@,
    ensures
        kind_of_extension(extension) is Some && kind_of_extension(extension).unwrap().0 == Some("python"@),
{
    reveal_strlit("py");
    reveal_strlit("rs");
    assert("py"@[0] != "rs"@[0]);
    assert("py"@ != "rs"@);
    reveal_strlit("toml");
    assert("py"@.len() != "toml"@.len());
    assert("py"@ != "toml"@);
    reveal_strlit("md");
    assert("py"@[0] != "md"@[0]);
    assert("py"@ != "md"@);
    reveal_strlit("markdown");
    assert("py"@.len() != "markdown"@.len());
    assert("py"@ != "markdown"@);
    reveal_strlit("json");
    assert("py"@.len() != "json"@.len());
    assert("py"@ != "json"@);
    reveal_strlit("jsonc");
    assert("py"@.len() != "jsonc"@.len());
    assert("py"@ != "jsonc"@);
    reveal_strlit("yaml");
    assert("py"@.len() != "yaml"@.len());
    assert("py"@ != "yaml"@);
    reveal_strlit("yml");
    assert("py"@.len() != "yml"@.len());
    assert("py"@ != "yml"@);
    reveal_strlit("python");
}

/// A file ending in `.pyi` is highlighted as python.
proof fn lemma_extension_pyi(extension: Seq<char>)
    requires
        ascii_lower(extension) == "pyi"@,
    ensures
        kind_of_extension(extension) is Some && kind_of_extension(extension).unwrap().0 == Some("python"@),
{
    reveal_strlit("pyi");
    reveal_strlit("rs");
    assert("pyi"@.len() != "rs"@.len());
    assert("pyi"@ != "rs"@);
    reveal_strlit("toml");
    assert("pyi"@.len() != "toml"@.len());
    assert("pyi"@ != "toml"@);
    reveal_strlit("md");
    assert("pyi"@.len() != "md"@.len());
    assert("pyi"@ != "md"@);
    reveal_strlit("markdown");
    assert("pyi"@.len() != "markdown"@.len());
    assert("pyi"@ != "markdown"@);
    reveal_strlit("json");
    assert("pyi"@.len() != "json"@.len());
    assert("pyi"@ != "json"@);
    reveal_strlit("jsonc");
    assert("pyi"@.len() != "jsonc"@.len());
    assert("pyi"@ != "jsonc"@);
    reveal_strlit("yaml");
    assert("pyi"@.len() != "yaml"@.len());
    assert("pyi"@ != "yaml"@);
    reveal_strlit("yml");
    assert("pyi"@[0] != "yml"@[0]);
    assert("pyi"@ != "yml"@);
    reveal_strlit("py");
    assert("pyi"@.len() != "py"@.len());
    assert("pyi"@ != "py"@);
    reveal_strlit("python");
}

/// A file ending in `.ts` is highlighted as typescript.
proof fn lemma_extension_ts(extension: Seq<char>)
    requires
        ascii_lower(extension) == "ts"@,
    ensures
        kind_of_extension(extension) is Some && kind_of_extension(extension).unwrap().0 == Some("typescript"@),
{
    reveal_strlit("ts");
    reveal_strlit("rs");
    assert("ts"@[0] != "rs"@[0]);
    assert("ts"@ != "rs"@);
    reveal_strlit("toml");
    assert("ts"@.len() != "toml"@.len());
    assert("ts"@ != "toml"@);
    reveal_strlit("md");
    assert("ts"@[0] != "md"@[0]);
    assert("ts"@ != "md"@);
    reveal_strlit("markdown");
    assert("ts"@.len() != "markdown"@.len());
    assert("ts"@ != "markdown"@);
    reveal_strlit("json");
    assert("ts"@.len() != "json"@.len());
    assert("ts"@ != "json"@);
    reveal_strlit("jsonc");
    assert("ts"@.len() != "jsonc"@.len());
    assert("ts"@ != "jsonc"@);
    reveal_strlit("yaml");
    assert("ts"@.len() != "yaml"@.len());
    assert("ts"@ != "yaml"@);
    reveal_strlit("yml");
    assert("ts"@.len() != "yml"@.len());
    assert("ts"@ != "yml"@);
    reveal_strlit("py");
    assert("ts"@[0] != "py"@[0]);
    assert("ts"@ != "py"@);
    reveal_strlit("pyi");
    assert("ts"@.len() != "pyi"@.len());
    assert("ts"@ != "pyi"@);
    reveal_strlit("typescript");
}

/// A file ending in `.tsx` is highlighted as tsx.
proof fn lemma_extension_tsx(extension: Seq<char>)
    requires
        ascii_lower(extension) == "tsx"@,
    ensures
        kind_of_extension(extension) is Some && kind_of_extension(extension).unwrap().0 == Some("tsx"@),
{
    reveal_strlit("tsx");
    reveal_strlit("rs");
    assert("tsx"@.len() != "rs"@.len());
    assert("tsx"@ != "rs"@);
    reveal_strlit("toml");
    assert("tsx"@.len() != "toml"@.len());
    assert("tsx"@ != "toml"@);
    reveal_strlit("md");
    assert("tsx"@.len() != "md"@.len());
    assert("tsx"@ != "md"@);
    reveal_strlit("markdown");
    assert("tsx"@.len() != "markdown"@.len());
    assert("tsx"@ != "markdown"@);
    reveal_strlit("json");
    assert("tsx"@.len() != "json"@.len());
    assert("tsx"@ != "json"@);
    reveal_strlit("jsonc");
    assert("tsx"@.len() != "jsonc"@.len());
    assert("tsx"@ != "jsonc"@);
    reveal_strlit("yaml");
    assert("tsx"@.len() != "yaml"@.len());
    assert("tsx"@ != "yaml"@);
    reveal_strlit("yml");
    assert("tsx"@[0] != "yml"@[0]);
    assert("tsx"@ != "yml"@);
    reveal_strlit("py");
    assert("tsx"@.len() != "py"@.len());
    assert("tsx"@ != "py"@);
    reveal_strlit("pyi");
    assert("tsx"@[0] != "pyi"@[0]);
    assert("tsx"@ != "pyi"@);
    reveal_strlit("ts");
    assert("tsx"@.len() != "ts"@.len());
    assert("tsx"@ != "ts"@);
    reveal_strlit("tsx");
}

/// A file ending in `.js` is highlighted as javascript.
proof fn lemma_extension_js(extension: Seq<char>)
    requires
        ascii_lower(extension) == "js"@,
    ensures
        kind_of_extension(extension) is Some && kind_of_extension(extension).unwrap().0 == Some("javascript"@),
{
    reveal_strlit("js");
    reveal_strlit("rs");
    assert("js"@[0] != "rs"@[0]);
    assert("js"@ != "rs"@);
    reveal_strlit("toml");
    assert("js"@.len() != "toml"@.len());
    assert("js"@ != "toml"@);
    reveal_strlit("md");
    assert("js"@[0] != "md"@[0]);
    assert("js"@ != "md"@);
    reveal_strlit("markdown");
    assert("js"@.len() != "markdown"@.len());
    assert("js"@ != "markdown"@);
    reveal_strlit("json");
    assert("js"@.len() != "json"@.len());
    assert("js"@ != "json"@);
    reveal_strlit("jsonc");
    assert("js"@.len() != "jsonc"@.len());
    assert("js"@ != "jsonc"@);
    reveal_strlit("yaml");
    assert("js"@.len() != "yaml"@.len());
    assert("js"@ != "yaml"@);
    reveal_strlit("yml");
    assert("js"@.len() != "yml"@.len());
    assert("js"@ != "yml"@);
    reveal_strlit("py");
    assert("js"@[0] != "py"@[0]);
    assert("js"@ != "py"@);
    reveal_strlit("pyi");
    assert("js"@.len() != "pyi"@.len());
    assert("js"@ != "pyi"@);
    reveal_strlit("ts");
    assert("js"@[0] != "ts"@[0]);
    assert("js"@ != "ts"@);
    reveal_strlit("tsx");
    assert("js"@.len() != "tsx"@.len());
    assert("js"@ != "tsx"@);
    reveal_strlit("javascript");
}

/// A file ending in `.jsx` is highlighted as javascript.
proof fn lemma_extension_jsx(extension: Seq<char>)
    requires
        ascii_lower(extension) == "jsx"@,
    ensures
        kind_of_extension(extension) is Some && kind_of_extension(extension).unwrap().0 == Some("javascript"@),
{
    reveal_strlit("jsx");
    reveal_strlit("rs");
    assert("jsx"@.len() != "rs"@.len());
    assert("jsx"@ != "rs"@);
    reveal_strlit("toml");
    assert("jsx"@.len() != "toml"@.len());
    assert("jsx"@ != "toml"@);
    reveal_strlit("md");
    assert("jsx"@.len() != "md"@.len());
    assert("jsx"@ != "md"@);
    reveal_strlit("markdown");
    assert("jsx"@.len() != "markdown"@.len());
    assert("jsx"@ != "markdown"@);
    reveal_strlit("json");
    assert("jsx"@.len() != "json"@.len());
    assert("jsx"@ != "json"@);
    reveal_strlit("jsonc");
    assert("jsx"@.len() != "jsonc"@.len());
    assert("jsx"@ != "jsonc"@);
    reveal_strlit("yaml");
    assert("jsx"@.len() != "yaml"@.len());
    assert("jsx"@ != "yaml"@);
    reveal_strlit("yml");
    assert("jsx"@[0] != "yml"@[0]);
    assert("jsx"@ != "yml"@);
    reveal_strlit("py");
    assert("jsx"@.len() != "py"@.len());
    assert("jsx"@ != "py"@);
    reveal_strlit("pyi");
    assert("jsx"@[0] != "pyi"@[0]);
    assert("jsx"@ != "pyi"@);
    reveal_strlit("ts");
    assert("jsx"@.len() != "ts"@.len());
    assert("jsx"@ != "ts"@);
    reveal_strlit("tsx");
    assert("jsx"@[0] != "tsx"@[0]);
    assert("jsx"@ != "tsx"@);
    reveal_strlit("js");
    assert("jsx"@.len() != "js"@.len());
    assert("jsx"@ != "js"@);
    reveal_strlit("javascript");
}

/// A file ending in `.mjs` is highlighted as javascript.
proof fn lemma_extension_mjs(extension: Seq<char>)
    requires
        ascii_lower(extension) == "mjs"@,
    ensures
        kind_of_extension(extension) is Some && kind_of_extension(extension).unwrap().0 == Some("javascript"@),
{
    reveal_strlit("mjs");
    reveal_strlit("rs");
    assert("mjs"@.len() != "rs"@.len());
    assert("mjs"@ != "rs"@);
    reveal_strlit("toml");
    assert("mjs"@.len() != "toml"@.len());
    assert("mjs"@ != "toml"@);
    reveal_strlit("md");
    assert("mjs"@.len() != "md"@.len());
    assert("mjs"@ != "md"@);
    reveal_strlit("markdown");
    assert("mjs"@.len() != "markdown"@.len());
    assert("mjs"@ != "markdown"@);
    reveal_strlit("json");
    assert("mjs"@.len() != "json"@.len());
    assert("mjs"@ != "json"@);
    reveal_strlit("jsonc");
    assert("mjs"@.len() != "jsonc"@.len());
    assert("mjs"@ != "jsonc"@);
    reveal_strlit("yaml");
    assert("mjs"@.len() != "yaml"@.len());
    assert("mjs"@ != "yaml"@);
    reveal_strlit("yml");
    assert("mjs"@[0] != "yml"@[0]);
    assert("mjs"@ != "yml"@);
    reveal_strlit("py");
    assert("mjs"@.len() != "py"@.len());
    assert("mjs"@ != "py"@);
    reveal_strlit("pyi");
    assert("mjs"@[0] != "pyi"@[0]);
    assert("mjs"@ != "pyi"@);
    reveal_strlit("ts");
    assert("mjs"@.len() != "ts"@.len());
    assert("mjs"@ != "ts"@);
    reveal_strlit("tsx");
    assert("mjs"@[0] != "tsx"@[0]);
    assert("mjs"@ != "tsx"@);
    reveal_strlit("js");
    assert("mjs"@.len() != "js"@.len());
    assert("mjs"@ != "js"@);
    reveal_strlit("jsx");
    assert("mjs"@[0] != "jsx"@[0]);
    assert("mjs"@ != "jsx"@);
    reveal_strlit("javascript");
}

/// A file ending in `.go` is highlighted as go.
proof fn lemma_extension_go(extension: Seq<char>)
    requires
        ascii_lower(extension) == "go"@,
    ensures
        kind_of_extension(extension) is Some && kind_of_extension(extension).unwrap().0 == Some("go"@),
{
    reveal_strlit("go");
    reveal_strlit("rs");
    assert("go"@[0] != "rs"@[0]);
    assert("go"@ != "rs"@);
    reveal_strlit("toml");
    assert("go"@.len() != "toml"@.len());
    assert("go"@ != "toml"@);
    reveal_strlit("md");
    assert("go"@[0] != "md"@[0]);
    assert("go"@ != "md"@);
    reveal_strlit("markdown");
    assert("go"@.len() != "markdown"@.len());
    assert("go"@ != "markdown"@);
    reveal_strlit("json");
    assert("go"@.len() != "json"@.len());
    assert("go"@ != "json"@);
    reveal_strlit("jsonc");
    assert("go"@.len() != "jsonc"@.len());
    assert("go"@ != "jsonc"@);
    reveal_strlit("yaml");
    assert("go"@.len() != "yaml"@.len());
    assert("go"@ != "yaml"@);
    reveal_strlit("yml");
    assert("go"@.len() != "yml"@.len());
    assert("go"@ != "yml"@);
    reveal_strlit("py");
    assert("go"@[0] != "py"@[0]);
    assert("go"@ != "py"@);
    reveal_strlit("pyi");
    assert("go"@.len() != "pyi"@.len());
    assert("go"@ != "pyi"@);
    reveal_strlit("ts");
    assert("go"@[0] != "ts"@[0]);
    assert("go"@ != "ts"@);
    reveal_strlit("tsx");
    assert("go"@.len() != "tsx"@.len());
    assert("go"@ != "tsx"@);
    reveal_strlit("js");
    assert("go"@[0] != "js"@[0]);
    assert("go"@ != "js"@);
    reveal_strlit("jsx");
    assert("go"@.len() != "jsx"@.len());
    assert("go"@ != "jsx"@);
    reveal_strlit("mjs");
    assert("go"@.len() != "mjs"@.len());
    assert("go"@ != "mjs"@);
    reveal_strlit("go");
}

/// A file ending in `.c` is highlighted as c.
proof fn lemma_extension_c(extension: Seq<char>)
    requires
        ascii_lower(extension) == "c"@,
    ensures
        kind_of_extension(extension) is Some && kind_of_extension(extension).unwrap().0 == Some("c"@),
{
    reveal_strlit("c");
    reveal_strlit("rs");
    assert("c"@.len() != "rs"@.len());
    assert("c"@ != "rs"@);
    reveal_strlit("toml");
    assert("c"@.len() != "toml"@.len());
    assert("c"@ != "toml"@);
    reveal_strlit("md");
    assert("c"@.len() != "md"@.len());
    assert("c"@ != "md"@);
    reveal_strlit("markdown");
    assert("c"@.len() != "markdown"@.len());
    assert("c"@ != "markdown"@);
    reveal_strlit("json");
    assert("c"@.len() != "json"@.len());
    assert("c"@ != "json"@);
    reveal_strlit("jsonc");
    assert("c"@.len() != "jsonc"@.len());
    assert("c"@ != "jsonc"@);
    reveal_strlit("yaml");
    assert("c"@.len() != "yaml"@.len());
    assert("c"@ != "yaml"@);
    reveal_strlit("yml");
    assert("c"@.len() != "yml"@.len());
    assert("c"@ != "yml"@);
    reveal_strlit("py");
    assert("c"@.len() != "py"@.len());
    assert("c"@ != "py"@);
    reveal_strlit("pyi");
    assert("c"@.len() != "pyi"@.len());
    assert("c"@ != "pyi"@);
    reveal_strlit("ts");
    assert("c"@.len() != "ts"@.len());
    assert("c"@ != "ts"@);
    reveal_strlit("tsx");
    assert("c"@.len() != "tsx"@.len());
    assert("c"@ != "tsx"@);
    reveal_strlit("js");
    assert("c"@.len() != "js"@.len());
    assert("c"@ != "js"@);
    reveal_strlit("jsx");
    assert("c"@.len() != "jsx"@.len());
    assert("c"@ != "jsx"@);
    reveal_strlit("mjs");
    assert("c"@.len() != "mjs"@.len());
    assert("c"@ != "mjs"@);
    reveal_strlit("go");
    assert("c"@.len() != "go"@.len());
    assert("c"@ != "go"@);
    reveal_strlit("c");
}

/// A file ending in `.h` is highlighted as c.
proof fn lemma_extension_h(extension: Seq<char>)
    requires
        ascii_lower(extension) == "h"@,
    ensures
        kind_of_extension(extension) is Some && kind_of_extension(extension).unwrap().0 == Some("c"@),
{
    reveal_strlit("h");
    reveal_strlit("rs");
    assert("h"@.len() != "rs"@.len());
    assert("h"@ != "rs"@);
    reveal_strlit("toml");
    assert("h"@.len() != "toml"@.len());
    assert("h"@ != "toml"@);
    reveal_strlit("md");
    assert("h"@.len() != "md"@.len());
    assert("h"@ != "md"@);
    reveal_strlit("markdown");
    assert("h"@.len() != "markdown"@.len());
    assert("h"@ != "markdown"@);
    reveal_strlit("json");
    assert("h"@.len() != "json"@.len());
    assert("h"@ != "json"@);
    reveal_strlit("jsonc");
    assert("h"@.len() != "jsonc"@.len());
    assert("h"@ != "jsonc"@);
    reveal_strlit("yaml");
    assert("h"@.len() != "yaml"@.len());
    assert("h"@ != "yaml"@);
    reveal_strlit("yml");
    assert("h"@.len() != "yml"@.len());
    assert("h"@ != "yml"@);
    reveal_strlit("py");
    assert("h"@.len() != "py"@.len());
    assert("h"@ != "py"@);
    reveal_strlit("pyi");
    assert("h"@.len() != "pyi"@.len());
    assert("h"@ != "pyi"@);
    reveal_strlit("ts");
    assert("h"@.len() != "ts"@.len());
    assert("h"@ != "ts"@);
    reveal_strlit("tsx");
    assert("h"@.len() != "tsx"@.len());
    assert("h"@ != "tsx"@);
    reveal_strlit("js");
    assert("h"@.len() != "js"@.len());
    assert("h"@ != "js"@);
    reveal_strlit("jsx");
    assert("h"@.len() != "jsx"@.len());
    assert("h"@ != "jsx"@);
    reveal_strlit("mjs");
    assert("h"@.len() != "mjs"@.len());
    assert("h"@ != "mjs"@);
    reveal_strlit("go");
    assert("h"@.len() != "go"@.len());
    assert("h"@ != "go"@);
    reveal_strlit("c");
    assert("h"@[0] != "c"@[0]);
    assert("h"@ != "c"@);
    reveal_strlit("c");
}

/// A file ending in `.cpp` is highlighted as cpp.
proof fn lemma_extension_cpp(extension: Seq<char>)
    requires
        ascii_lower(extension) == "cpp"@,
    ensures
        kind_of_extension(extension) is Some && kind_of_extension(extension).unwrap().0 == Some("cpp"@),
{
    reveal_strlit("cpp");
    reveal_strlit("rs");
    assert("cpp"@.len() != "rs"@.len());
    assert("cpp"@ != "rs"@);
    reveal_strlit("toml");
    assert("cpp"@.len() != "toml"@.len());
    assert("cpp"@ != "toml"@);
    reveal_strlit("md");
    assert("cpp"@.len() != "md"@.len());
    assert("cpp"@ != "md"@);
    reveal_strlit("markdown");
    assert("cpp"@.len() != "markdown"@.len());
    assert("cpp"@ != "markdown"@);
    reveal_strlit("json");
    assert("cpp"@.len() != "json"@.len());
    assert("cpp"@ != "json"@);
    reveal_strlit("jsonc");
    assert("cpp"@.len() != "jsonc"@.len());
    assert("cpp"@ != "jsonc"@);
    reveal_strlit("yaml");
    assert("cpp"@.len() != "yaml"@.len());
    assert("cpp"@ != "yaml"@);
    reveal_strlit("yml");
    assert("cpp"@[0] != "yml"@[0]);
    assert("cpp"@ != "yml"@);
    reveal_strlit("py");
    assert("cpp"@.len() != "py"@.len());
    assert("cpp"@ != "py"@);
    reveal_strlit("pyi");
    assert("cpp"@[0] != "pyi"@[0]);
    assert("cpp"@ != "pyi"@);
    reveal_strlit("ts");
    assert("cpp"@.len() != "ts"@.len());
    assert("cpp"@ != "ts"@);
    reveal_strlit("tsx");
    assert("cpp"@[0] != "tsx"@[0]);
    assert("cpp"@ != "tsx"@);
    reveal_strlit("js");
    assert("cpp"@.len() != "js"@.len());
    assert("cpp"@ != "js"@);
    reveal_strlit("jsx");
    assert("cpp"@[0] != "jsx"@[0]);
    assert("cpp"@ != "jsx"@);
    reveal_strlit("mjs");
    assert("cpp"@[0] != "mjs"@[0]);
    assert("cpp"@ != "mjs"@);
    reveal_strlit("go");
    assert("cpp"@.len() != "go"@.len());
    assert("cpp"@ != "go"@);
    reveal_strlit("c");
    assert("cpp"@.len() != "c"@.len());
    assert("cpp"@ != "c"@);
    reveal_strlit("h");
    assert("cpp"@.len() != "h"@.len());
    assert("cpp"@ != "h"@);
    reveal_strlit("cpp");
}

/// A file ending in `.cc` is highlighted as cpp.
proof fn lemma_extension_cc(extension: Seq<char>)
    requires
        ascii_lower(extension) == "cc"@,
    ensures
        kind_of_extension(extension) is Some && kind_of_extension(extension).unwrap().0 == Some("cpp"@),
{
    reveal_strlit("cc");
    reveal_strlit("rs");
    assert("cc"@[0] != "rs"@[0]);
    assert("cc"@ != "rs"@);
    reveal_strlit("toml");
    assert("cc"@.len() != "toml"@.len());
    assert("cc"@ != "toml"@);
    reveal_strlit("md");
    assert("cc"@[0] != "md"@[0]);
    assert("cc"@ != "md"@);
    reveal_strlit("markdown");
    assert("cc"@.len() != "markdown"@.len());
    assert("cc"@ != "markdown"@);
    reveal_strlit("json");
    assert("cc"@.len() != "json"@.len());
    assert("cc"@ != "json"@);
    reveal_strlit("jsonc");
    assert("cc"@.len() != "jsonc"@.len());
    assert("cc"@ != "jsonc"@);
    reveal_strlit("yaml");
    assert("cc"@.len() != "yaml"@.len());
    assert("cc"@ != "yaml"@);
    reveal_strlit("yml");
    assert("cc"@.len() != "yml"@.len());
    assert("cc"@ != "yml"@);
    reveal_strlit("py");
    assert("cc"@[0] != "py"@[0]);
    assert("cc"@ != "py"@);
    reveal_strlit("pyi");
    assert("cc"@.len() != "pyi"@.len());
    assert("cc"@ != "pyi"@);
    reveal_strlit("ts");
    assert("cc"@[0] != "ts"@[0]);
    assert("cc"@ != "ts"@);
    reveal_strlit("tsx");
    assert("cc"@.len() != "tsx"@.len());
    assert("cc"@ != "tsx"@);
    reveal_strlit("js");
    assert("cc"@[0] != "js"@[0]);
    assert("cc"@ != "js"@);
    reveal_strlit("jsx");
    assert("cc"@.len() != "jsx"@.len());
    assert("cc"@ != "jsx"@);
    reveal_strlit("mjs");
    assert("cc"@.len() != "mjs"@.len());
    assert("cc"@ != "mjs"@);
    reveal_strlit("go");
    assert("cc"@[0] != "go"@[0]);
    assert("cc"@ != "go"@);
    reveal_strlit("c");
    assert("cc"@.len() != "c"@.len());
    assert("cc"@ != "c"@);
    reveal_strlit("h");
    assert("cc"@.len() != "h"@.len());
    assert("cc"@ != "h"@);
    reveal_strlit("cpp");
    assert("cc"@.len() != "cpp"@.len());
    assert("cc"@ != "cpp"@);
    reveal_strlit("cpp");
}

/// A file ending in `.hpp` is highlighted as cpp.
proof fn lemma_extension_hpp(extension: Seq<char>)
    requires
        ascii_lower(extension) == "hpp"@,
    ensures
        kind_of_extension(extension) is Some && kind_of_extension(extension).unwrap().0 == Some("cpp"@),
{
    reveal_strlit("hpp");
    reveal_strlit("rs");
    assert("hpp"@.len() != "rs"@.len());
    assert("hpp"@ != "rs"@);
    reveal_strlit("toml");
    assert("hpp"@.len() != "toml"@.len());
    assert("hpp"@ != "toml"@);
    reveal_strlit("md");
    assert("hpp"@.len() != "md"@.len());
    assert("hpp"@ != "md"@);
    reveal_strlit("markdown");
    assert("hpp"@.len() != "markdown"@.len());
    assert("hpp"@ != "markdown"@);
    reveal_strlit("json");
    assert("hpp"@.len() != "json"@.len());
    assert("hpp"@ != "json"@);
    reveal_strlit("jsonc");
    assert("hpp"@.len() != "jsonc"@.len());
    assert("hpp"@ != "jsonc"@);
    reveal_strlit("yaml");
    assert("hpp"@.len() != "yaml"@.len());
    assert("hpp"@ != "yaml"@);
    reveal_strlit("yml");
    assert("hpp"@[0] != "yml"@[0]);
    assert("hpp"@ != "yml"@);
    reveal_strlit("py");
    assert("hpp"@.len() != "py"@.len());
    assert("hpp"@ != "py"@);
    reveal_strlit("pyi");
    assert("hpp"@[0] != "pyi"@[0]);
    assert("hpp"@ != "pyi"@);
    reveal_strlit("ts");
    assert("hpp"@.len() != "ts"@.len());
    assert("hpp"@ != "ts"@);
    reveal_strlit("tsx");
    assert("hpp"@[0] != "tsx"@[0]);
    assert("hpp"@ != "tsx"@);
    reveal_strlit("js");
    assert("hpp"@.len() != "js"@.len());
    assert("hpp"@ != "js"@);
    reveal_strlit("jsx");
    assert("hpp"@[0] != "jsx"@[0]);
    assert("hpp"@ != "jsx"@);
    reveal_strlit("mjs");
    assert("hpp"@[0] != "mjs"@[0]);
    assert("hpp"@ != "mjs"@);
    reveal_strlit("go");
    assert("hpp"@.len() != "go"@.len());
    assert("hpp"@ != "go"@);
    reveal_strlit("c");
    assert("hpp"@.len() != "c"@.len());
    assert("hpp"@ != "c"@);
    reveal_strlit("h");
    assert("hpp"@.len() != "h"@.len());
    assert("hpp"@ != "h"@);
    reveal_strlit("cpp");
    assert("hpp"@[0] != "cpp"@[0]);
    assert("hpp"@ != "cpp"@);
    reveal_strlit("cc");
    assert("hpp"@.len() != "cc"@.len());
    assert("hpp"@ != "cc"@);
    reveal_strlit("cpp");
}

/// A file ending in `.lua` is highlighted as lua.
proof fn lemma_extension_lua(extension: Seq<char>)
    requires
        ascii_lower(extension) == "lua"@,
    ensures
        kind_of_extension(extension) is Some && kind_of_extension(extension).unwrap().0 == Some("lua"@),
{
    reveal_strlit("lua");
    reveal_strlit("rs");
    assert("lua"@.len() != "rs"@.len());
    assert("lua"@ != "rs"@);
    reveal_strlit("toml");
    assert("lua"@.len() != "toml"@.len());
    assert("lua"@ != "toml"@);
    reveal_strlit("md");
    assert("lua"@.len() != "md"@.len());
    assert("lua"@ != "md"@);
    reveal_strlit("markdown");
    assert("lua"@.len() != "markdown"@.len());
    assert("lua"@ != "markdown"@);
    reveal_strlit("json");
    assert("lua"@.len() != "json"@.len());
    assert("lua"@ != "json"@);
    reveal_strlit("jsonc");
    assert("lua"@.len() != "jsonc"@.len());
    assert("lua"@ != "jsonc"@);
    reveal_strlit("yaml");
    assert("lua"@.len() != "yaml"@.len());
    assert("lua"@ != "yaml"@);
    reveal_strlit("yml");
    assert("lua"@[0] != "yml"@[0]);
    assert("lua"@ != "yml"@);
    reveal_strlit("py");
    assert("lua"@.len() != "py"@.len());
    assert("lua"@ != "py"@);
    reveal_strlit("pyi");
    assert("lua"@[0] != "pyi"@[0]);
    assert("lua"@ != "pyi"@);
    reveal_strlit("ts");
    assert("lua"@.len() != "ts"@.len());
    assert("lua"@ != "ts"@);
    reveal_strlit("tsx");
    assert("lua"@[0] != "tsx"@[0]);
    assert("lua"@ != "tsx"@);
    reveal_strlit("js");
    assert("lua"@.len() != "js"@.len());
    assert("lua"@ != "js"@);
    reveal_strlit("jsx");
    assert("lua"@[0] != "jsx"@[0]);
    assert("lua"@ != "jsx"@);
    reveal_strlit("mjs");
    assert("lua"@[0] != "mjs"@[0]);
    assert("lua"@ != "mjs"@);
    reveal_strlit("go");
    assert("lua"@.len() != "go"@.len());
    assert("lua"@ != "go"@);
    reveal_strlit("c");
    assert("lua"@.len() != "c"@.len());
    assert("lua"@ != "c"@);
    reveal_strlit("h");
    assert("lua"@.len() != "h"@.len());
    assert("lua"@ != "h"@);
    reveal_strlit("cpp");
    assert("lua"@[0] != "cpp"@[0]);
    assert("lua"@ != "cpp"@);
    reveal_strlit("cc");
    assert("lua"@.len() != "cc"@.len());
    assert("lua"@ != "cc"@);
    reveal_strlit("hpp");
    assert("lua"@[0] != "hpp"@[0]);
    assert("lua"@ != "hpp"@);
    reveal_strlit("lua");
}

/// A file ending in `.sh` is highlighted as bash.
proof fn lemma_extension_sh(extension: Seq<char>)
    requires
        ascii_lower(extension) == "sh"@,
    ensures
        kind_of_extension(extension) is Some && kind_of_extension(extension).unwrap().0 == Some("bash"@),
{
    reveal_strlit("sh");
    reveal_strlit("rs");
    assert("sh"@[0] != "rs"@[0]);
    assert("sh"@ != "rs"@);
    reveal_strlit("toml");
    assert("sh"@.len() != "toml"@.len());
    assert("sh"@ != "toml"@);
    reveal_strlit("md");
    assert("sh"@[0] != "md"@[0]);
    assert("sh"@ != "md"@);
    reveal_strlit("markdown");
    assert("sh"@.len() != "markdown"@.len());
    assert("sh"@ != "markdown"@);
    reveal_strlit("json");
    assert("sh"@.len() != "json"@.len());
    assert("sh"@ != "json"@);
    reveal_strlit("jsonc");
    assert("sh"@.len() != "jsonc"@.len());
    assert("sh"@ != "jsonc"@);
    reveal_strlit("yaml");
    assert("sh"@.len() != "yaml"@.len());
    assert("sh"@ != "yaml"@);
    reveal_strlit("yml");
    assert("sh"@.len() != "yml"@.len());
    assert("sh"@ != "yml"@);
    reveal_strlit("py");
    assert("sh"@[0] != "py"@[0]);
    assert("sh"@ != "py"@);
    reveal_strlit("pyi");
    assert("sh"@.len() != "pyi"@.len());
    assert("sh"@ != "pyi"@);
    reveal_strlit("ts");
    assert("sh"@[0] != "ts"@[0]);
    assert("sh"@ != "ts"@);
    reveal_strlit("tsx");
    assert("sh"@.len() != "tsx"@.len());
    assert("sh"@ != "tsx"@);
    reveal_strlit("js");
    assert("sh"@[0] != "js"@[0]);
    assert("sh"@ != "js"@);
    reveal_strlit("jsx");
    assert("sh"@.len() != "jsx"@.len());
    assert("sh"@ != "jsx"@);
    reveal_strlit("mjs");
    assert("sh"@.len() != "mjs"@.len());
    assert("sh"@ != "mjs"@);
    reveal_strlit("go");
    assert("sh"@[0] != "go"@[0]);
    assert("sh"@ != "go"@);
    reveal_strlit("c");
    assert("sh"@.len() != "c"@.len());
    assert("sh"@ != "c"@);
    reveal_strlit("h");
    assert("sh"@.len() != "h"@.len());
    assert("sh"@ != "h"@);
    reveal_strlit("cpp");
    assert("sh"@.len() != "cpp"@.len());
    assert("sh"@ != "cpp"@);
    reveal_strlit("cc");
    assert("sh"@[0] != "cc"@[0]);
    assert("sh"@ != "cc"@);
    reveal_strlit("hpp");
    assert("sh"@.len() != "hpp"@.len());
    assert("sh"@ != "hpp"@);
    reveal_strlit("lua");
    assert("sh"@.len() != "lua"@.len());
    assert("sh"@ != "lua"@);
    reveal_strlit("bash");
}

/// A file ending in `.bash` is highlighted as bash.
proof fn lemma_extension_bash(extension: Seq<char>)
    requires
        ascii_lower(extension) == "bash"@,
    ensures
        kind_of_extension(extension) is Some && kind_of_extension(extension).unwrap().0 == Some("bash"@),
{
    reveal_strlit("bash");
    reveal_strlit("rs");
    assert("bash"@.len() != "rs"@.len());
    assert("bash"@ != "rs"@);
    reveal_strlit("toml");
    assert("bash"@[0] != "toml"@[0]);
    assert("bash"@ != "toml"@);
    reveal_strlit("md");
    assert("bash"@.len() != "md"@.len());
    assert("bash"@ != "md"@);
    reveal_strlit("markdown");
    assert("bash"@.len() != "markdown"@.len());
    assert("bash"@ != "markdown"@);
    reveal_strlit("json");
    assert("bash"@[0] != "json"@[0]);
    assert("bash"@ != "json"@);
    reveal_strlit("jsonc");
    assert("bash"@.len() != "jsonc"@.len());
    assert("bash"@ != "jsonc"@);
    reveal_strlit("yaml");
    assert("bash"@[0] != "yaml"@[0]);
    assert("bash"@ != "yaml"@);
    reveal_strlit("yml");
    assert("bash"@.len() != "yml"@.len());
    assert("bash"@ != "yml"@);
    reveal_strlit("py");
    assert("bash"@.len() != "py"@.len());
    assert("bash"@ != "py"@);
    reveal_strlit("pyi");
    assert("bash"@.len() != "pyi"@.len());
    assert("bash"@ != "pyi"@);
    reveal_strlit("ts");
    assert("bash"@.len() != "ts"@.len());
    assert("bash"@ != "ts"@);
    reveal_strlit("tsx");
    assert("bash"@.len() != "tsx"@.len());
    assert("bash"@ != "tsx"@);
    reveal_strlit("js");
    assert("bash"@.len() != "js"@.len());
    assert("bash"@ != "js"@);
    reveal_strlit("jsx");
    assert("bash"@.len() != "jsx"@.len());
    assert("bash"@ != "jsx"@);
    reveal_strlit("mjs");
    assert("bash"@.len() != "mjs"@.len());
    assert("bash"@ != "mjs"@);
    reveal_strlit("go");
    assert("bash"@.len() != "go"@.len());
    assert("bash"@ != "go"@);
    reveal_strlit("c");
    assert("bash"@.len() != "c"@.len());
    assert("bash"@ != "c"@);
    reveal_strlit("h");
    assert("bash"@.len() != "h"@.len());
    assert("bash"@ != "h"@);
    reveal_strlit("cpp");
    assert("bash"@.len() != "cpp"@.len());
    assert("bash"@ != "cpp"@);
    reveal_strlit("cc");
    assert("bash"@.len() != "cc"@.len());
    assert("bash"@ != "cc"@);
    reveal_strlit("hpp");
    assert("bash"@.len() != "hpp"@.len());
    assert("bash"@ != "hpp"@);
    reveal_strlit("lua");
    assert("bash"@.len() != "lua"@.len());
    assert("bash"@ != "lua"@);
    reveal_strlit("sh");
    assert("bash"@.len() != "sh"@.len());
    assert("bash"@ != "sh"@);
    reveal_strlit("bash");
}

/// A file ending in `.zsh` is highlighted as bash.
proof fn lemma_extension_zsh(extension: Seq<char>)
    requires
        ascii_lower(extension) == "zsh"@,
    ensures
        kind_of_extension(extension) is Some && kind_of_extension(extension).unwrap().0 == Some("bash"@),
{
    reveal_strlit("zsh");
    reveal_strlit("rs");
    assert("zsh"@.len() != "rs"@.len());
    assert("zsh"@ != "rs"@);
    reveal_strlit("toml");
    assert("zsh"@.len() != "toml"@.len());
    assert("zsh"@ != "toml"@);
    reveal_strlit("md");
    assert("zsh"@.len() != "md"@.len());
    assert("zsh"@ != "md"@);
    reveal_strlit("markdown");
    assert("zsh"@.len() != "markdown"@.len());
    assert("zsh"@ != "markdown"@);
    reveal_strlit("json");
    assert("zsh"@.len() != "json"@.len());
    assert("zsh"@ != "json"@);
    reveal_strlit("jsonc");
    assert("zsh"@.len() != "jsonc"@.len());
    assert("zsh"@ != "jsonc"@);
    reveal_strlit("yaml");
    assert("zsh"@.len() != "yaml"@.len());
    assert("zsh"@ != "yaml"@);
    reveal_strlit("yml");
    assert("zsh"@[0] != "yml"@[0]);
    assert("zsh"@ != "yml"@);
    reveal_strlit("py");
    assert("zsh"@.len() != "py"@.len());
    assert("zsh"@ != "py"@);
    reveal_strlit("pyi");
    assert("zsh"@[0] != "pyi"@[0]);
    assert("zsh"@ != "pyi"@);
    reveal_strlit("ts");
    assert("zsh"@.len() != "ts"@.len());
    assert("zsh"@ != "ts"@);
    reveal_strlit("tsx");
    assert("zsh"@[0] != "tsx"@[0]);
    assert("zsh"@ != "tsx"@);
    reveal_strlit("js");
    assert("zsh"@.len() != "js"@.len());
    assert("zsh"@ != "js"@);
    reveal_strlit("jsx");
    assert("zsh"@[0] != "jsx"@[0]);
    assert("zsh"@ != "jsx"@);
    reveal_strlit("mjs");
    assert("zsh"@[0] != "mjs"@[0]);
    assert("zsh"@ != "mjs"@);
    reveal_strlit("go");
    assert("zsh"@.len() != "go"@.len());
    assert("zsh"@ != "go"@);
    reveal_strlit("c");
    assert("zsh"@.len() != "c"@.len());
    assert("zsh"@ != "c"@);
    reveal_strlit("h");
    assert("zsh"@.len() != "h"@.len());
    assert("zsh"@ != "h"@);
    reveal_strlit("cpp");
    assert("zsh"@[0] != "cpp"@[0]);
    assert("zsh"@ != "cpp"@);
    reveal_strlit("cc");
    assert("zsh"@.len() != "cc"@.len());
    assert("zsh"@ != "cc"@);
    reveal_strlit("hpp");
    assert("zsh"@[0] != "hpp"@[0]);
    assert("zsh"@ != "hpp"@);
    reveal_strlit("lua");
    assert("zsh"@[0] != "lua"@[0]);
    assert("zsh"@ != "lua"@);
    reveal_strlit("sh");
    assert("zsh"@.len() != "sh"@.len());
    assert("zsh"@ != "sh"@);
    reveal_strlit("bash");
    assert("zsh"@.len() != "bash"@.len());
    assert("zsh"@ != "bash"@);
    reveal_strlit("bash");
}

/// A file ending in `.fish` is highlighted as bash.
proof fn lemma_extension_fish(extension: Seq<char>)
    requires
        ascii_lower(extension) == "fish"@,
    ensures
        kind_of_extension(extension) is Some && kind_of_extension(extension).unwrap().0 == Some("bash"@),
{
    reveal_strlit("fish");
    reveal_strlit("rs");
    assert("fish"@.len() != "rs"@.len());
    assert("fish"@ != "rs"@);
    reveal_strlit("toml");
    assert("fish"@[0] != "toml"@[0]);
    assert("fish"@ != "toml"@);
    reveal_strlit("md");
    assert("fish"@.len() != "md"@.len());
    assert("fish"@ != "md"@);
    reveal_strlit("markdown");
    assert("fish"@.len() != "markdown"@.len());
    assert("fish"@ != "markdown"@);
    reveal_strlit("json");
    assert("fish"@[0] != "json"@[0]);
    assert("fish"@ != "json"@);
    reveal_strlit("jsonc");
    assert("fish"@.len() != "jsonc"@.len());
    assert("fish"@ != "jsonc"@);
    reveal_strlit("yaml");
    assert("fish"@[0] != "yaml"@[0]);
    assert("fish"@ != "yaml"@);
    reveal_strlit("yml");
    assert("fish"@.len() != "yml"@.len());
    assert("fish"@ != "yml"@);
    reveal_strlit("py");
    assert("fish"@.len() != "py"@.len());
    assert("fish"@ != "py"@);
    reveal_strlit("pyi");
    assert("fish"@.len() != "pyi"@.len());
    assert("fish"@ != "pyi"@);
    reveal_strlit("ts");
    assert("fish"@.len() != "ts"@.len());
    assert("fish"@ != "ts"@);
    reveal_strlit("tsx");
    assert("fish"@.len() != "tsx"@.len());
    assert("fish"@ != "tsx"@);
    reveal_strlit("js");
    assert("fish"@.len() != "js"@.len());
    assert("fish"@ != "js"@);
    reveal_strlit("jsx");
    assert("fish"@.len() != "jsx"@.len());
    assert("fish"@ != "jsx"@);
    reveal_strlit("mjs");
    assert("fish"@.len() != "mjs"@.len());
    assert("fish"@ != "mjs"@);
    reveal_strlit("go");
    assert("fish"@.len() != "go"@.len());
    assert("fish"@ != "go"@);
    reveal_strlit("c");
    assert("fish"@.len() != "c"@.len());
    assert("fish"@ != "c"@);
    reveal_strlit("h");
    assert("fish"@.len() != "h"@.len());
    assert("fish"@ != "h"@);
    reveal_strlit("cpp");
    assert("fish"@.len() != "cpp"@.len());
    assert("fish"@ != "cpp"@);
    reveal_strlit("cc");
    assert("fish"@.len() != "cc"@.len());
    assert("fish"@ != "cc"@);
    reveal_strlit("hpp");
    assert("fish"@.len() != "hpp"@.len());
    assert("fish"@ != "hpp"@);
    reveal_strlit("lua");
    assert("fish"@.len() != "lua"@.len());
    assert("fish"@ != "lua"@);
    reveal_strlit("sh");
    assert("fish"@.len() != "sh"@.len());
    assert("fish"@ != "sh"@);
    reveal_strlit("bash");
    assert("fish"@[0] != "bash"@[0]);
    assert("fish"@ != "bash"@);
    reveal_strlit("zsh");
    assert("fish"@.len() != "zsh"@.len());
    assert("fish"@ != "zsh"@);
    reveal_strlit("bash");
}

/// A file ending in `.html` is highlighted as html.
proof fn lemma_extension_html(extension: Seq<char>)
    requires
        ascii_lower(extension) == "html"@,
    ensures
        kind_of_extension(extension) is Some && kind_of_extension(extension).unwrap().0 == Some("html"@),
{
    reveal_strlit("html");
    reveal_strlit("rs");
    assert("html"@.len() != "rs"@.len());
    assert("html"@ != "rs"@);
    reveal_strlit("toml");
    assert("html"@[0] != "toml"@[0]);
    assert("html"@ != "toml"@);
    reveal_strlit("md");
    assert("html"@.len() != "md"@.len());
    assert("html"@ != "md"@);
    reveal_strlit("markdown");
    assert("html"@.len() != "markdown"@.len());
    assert("html"@ != "markdown"@);
    reveal_strlit("json");
    assert("html"@[0] != "json"@[0]);
    assert("html"@ != "json"@);
    reveal_strlit("jsonc");
    assert("html"@.len() != "jsonc"@.len());
    assert("html"@ != "jsonc"@);
    reveal_strlit("yaml");
    assert("html"@[0] != "yaml"@[0]);
    assert("html"@ != "yaml"@);
    reveal_strlit("yml");
    assert("html"@.len() != "yml"@.len());
    assert("html"@ != "yml"@);
    reveal_strlit("py");
    assert("html"@.len() != "py"@.len());
    assert("html"@ != "py"@);
    reveal_strlit("pyi");
    assert("html"@.len() != "pyi"@.len());
    assert("html"@ != "pyi"@);
    reveal_strlit("ts");
    assert("html"@.len() != "ts"@.len());
    assert("html"@ != "ts"@);
    reveal_strlit("tsx");
    assert("html"@.len() != "tsx"@.len());
    assert("html"@ != "tsx"@);
    reveal_strlit("js");
    assert("html"@.len() != "js"@.len());
    assert("html"@ != "js"@);
    reveal_strlit("jsx");
    assert("html"@.len() != "jsx"@.len());
    assert("html"@ != "jsx"@);
    reveal_strlit("mjs");
    assert("html"@.len() != "mjs"@.len());
    assert("html"@ != "mjs"@);
    reveal_strlit("go");
    assert("html"@.len() != "go"@.len());
    assert("html"@ != "go"@);
    reveal_strlit("c");
    assert("html"@.len() != "c"@.len());
    assert("html"@ != "c"@);
    reveal_strlit("h");
    assert("html"@.len() != "h"@.len());
    assert("html"@ != "h"@);
    reveal_strlit("cpp");
    assert("html"@.len() != "cpp"@.len());
    assert("html"@ != "cpp"@);
    reveal_strlit("cc");
    assert("html"@.len() != "cc"@.len());
    assert("html"@ != "cc"@);
    reveal_strlit("hpp");
    assert("html"@.len() != "hpp"@.len());
    assert("html"@ != "hpp"@);
    reveal_strlit("lua");
    assert("html"@.len() != "lua"@.len());
    assert("html"@ != "lua"@);
    reveal_strlit("sh");
    assert("html"@.len() != "sh"@.len());
    assert("html"@ != "sh"@);
    reveal_strlit("bash");
    assert("html"@[0] != "bash"@[0]);
    assert("html"@ != "bash"@);
    reveal_strlit("zsh");
    assert("html"@.len() != "zsh"@.len());
    assert("html"@ != "zsh"@);
    reveal_strlit("fish");
    assert("html"@[0] != "fish"@[0]);
    assert("html"@ != "fish"@);
    reveal_strlit("html");
}

/// A file ending in `.css` is highlighted as css.
proof fn lemma_extension_css(extension: Seq<char>)
    requires
        ascii_lower(extension) == "css"@,
    ensures
        kind_of_extension(extension) is Some && kind_of_extension(extension).unwrap().0 == Some("css"@),
{
    reveal_strlit("css");
    reveal_strlit("rs");
    assert("css"@.len() != "rs"@.len());
    assert("css"@ != "rs"@);
    reveal_strlit("toml");
    assert("css"@.len() != "toml"@.len());
    assert("css"@ != "toml"@);
    reveal_strlit("md");
    assert("css"@.len() != "md"@.len());
    assert("css"@ != "md"@);
    reveal_strlit("markdown");
    assert("css"@.len() != "markdown"@.len());
    assert("css"@ != "markdown"@);
    reveal_strlit("json");
    assert("css"@.len() != "json"@.len());
    assert("css"@ != "json"@);
    reveal_strlit("jsonc");
    assert("css"@.len() != "jsonc"@.len());
    assert("css"@ != "jsonc"@);
    reveal_strlit("yaml");
    assert("css"@.len() != "yaml"@.len());
    assert("css"@ != "yaml"@);
    reveal_strlit("yml");
    assert("css"@[0] != "yml"@[0]);
    assert("css"@ != "yml"@);
    reveal_strlit("py");
    assert("css"@.len() != "py"@.len());
    assert("css"@ != "py"@);
    reveal_strlit("pyi");
    assert("css"@[0] != "pyi"@[0]);
    assert("css"@ != "pyi"@);
    reveal_strlit("ts");
    assert("css"@.len() != "ts"@.len());
    assert("css"@ != "ts"@);
    reveal_strlit("tsx");
    assert("css"@[0] != "tsx"@[0]);
    assert("css"@ != "tsx"@);
    reveal_strlit("js");
    assert("css"@.len() != "js"@.len());
    assert("css"@ != "js"@);
    reveal_strlit("jsx");
    assert("css"@[0] != "jsx"@[0]);
    assert("css"@ != "jsx"@);
    reveal_strlit("mjs");
    assert("css"@[0] != "mjs"@[0]);
    assert("css"@ != "mjs"@);
    reveal_strlit("go");
    assert("css"@.len() != "go"@.len());
    assert("css"@ != "go"@);
    reveal_strlit("c");
    assert("css"@.len() != "c"@.len());
    assert("css"@ != "c"@);
    reveal_strlit("h");
    assert("css"@.len() != "h"@.len());
    assert("css"@ != "h"@);
    reveal_strlit("cpp");
    assert("css"@[1] != "cpp"@[1]);
    assert("css"@ != "cpp"@);
    reveal_strlit("cc");
    assert("css"@.len() != "cc"@.len());
    assert("css"@ != "cc"@);
    reveal_strlit("hpp");
    assert("css"@[0] != "hpp"@[0]);
    assert("css"@ != "hpp"@);
    reveal_strlit("lua");
    assert("css"@[0] != "lua"@[0]);
    assert("css"@ != "lua"@);
    reveal_strlit("sh");
    assert("css"@.len() != "sh"@.len());
    assert("css"@ != "sh"@);
    reveal_strlit("bash");
    assert("css"@.len() != "bash"@.len());
    assert("css"@ != "bash"@);
    reveal_strlit("zsh");
    assert("css"@[0] != "zsh"@[0]);
    assert("css"@ != "zsh"@);
    reveal_strlit("fish");
    assert("css"@.len() != "fish"@.len());
    assert("css"@ != "fish"@);
    reveal_strlit("html");
    assert("css"@.len() != "html"@.len());
    assert("css"@ != "html"@);
    reveal_strlit("css");
}

/// A file ending in `.scss` is highlighted as css.
proof fn lemma_extension_scss(extension: Seq<char>)
    requires
        ascii_lower(extension) == "scss"@,
    ensures
        kind_of_extension(extension) is Some && kind_of_extension(extension).unwrap().0 == Some("css"@),
{
    reveal_strlit("scss");
    reveal_strlit("rs");
    assert("scss"@.len() != "rs"@.len());
    assert("scss"@ != "rs"@);
    reveal_strlit("toml");
    assert("scss"@[0] != "toml"@[0]);
    assert("scss"@ != "toml"@);
    reveal_strlit("md");
    assert("scss"@.len() != "md"@.len());
    assert("scss"@ != "md"@);
    reveal_strlit("markdown");
    assert("scss"@.len() != "markdown"@.len());
    assert("scss"@ != "markdown"@);
    reveal_strlit("json");
    assert("scss"@[0] != "json"@[0]);
    assert("scss"@ != "json"@);
    reveal_strlit("jsonc");
    assert("scss"@.len() != "jsonc"@.len());
    assert("scss"@ != "jsonc"@);
    reveal_strlit("yaml");
    assert("scss"@[0] != "yaml"@[0]);
    assert("scss"@ != "yaml"@);
    reveal_strlit("yml");
    assert("scss"@.len() != "yml"@.len());
    assert("scss"@ != "yml"@);
    reveal_strlit("py");
    assert("scss"@.len() != "py"@.len());
    assert("scss"@ != "py"@);
    reveal_strlit("pyi");
    assert("scss"@.len() != "pyi"@.len());
    assert("scss"@ != "pyi"@);
    reveal_strlit("ts");
    assert("scss"@.len() != "ts"@.len());
    assert("scss"@ != "ts"@);
    reveal_strlit("tsx");
    assert("scss"@.len() != "tsx"@.len());
    assert("scss"@ != "tsx"@);
    reveal_strlit("js");
    assert("scss"@.len() != "js"@.len());
    assert("scss"@ != "js"@);
    reveal_strlit("jsx");
    assert("scss"@.len() != "jsx"@.len());
    assert("scss"@ != "jsx"@);
    reveal_strlit("mjs");
    assert("scss"@.len() != "mjs"@.len());
    assert("scss"@ != "mjs"@);
    reveal_strlit("go");
    assert("scss"@.len() != "go"@.len());
    assert("scss"@ != "go"@);
    reveal_strlit("c");
    assert("scss"@.len() != "c"@.len());
    assert("scss"@ != "c"@);
    reveal_strlit("h");
    assert("scss"@.len() != "h"@.len());
    assert("scss"@ != "h"@);
    reveal_strlit("cpp");
    assert("scss"@.len() != "cpp"@.len());
    assert("scss"@ != "cpp"@);
    reveal_strlit("cc");
    assert("scss"@.len() != "cc"@.len());
    assert("scss"@ != "cc"@);
    reveal_strlit("hpp");
    assert("scss"@.len() != "hpp"@.len());
    assert("scss"@ != "hpp"@);
    reveal_strlit("lua");
    assert("scss"@.len() != "lua"@.len());
    assert("scss"@ != "lua"@);
    reveal_strlit("sh");
    assert("scss"@.len() != "sh"@.len());
    assert("scss"@ != "sh"@);
    reveal_strlit("bash");
    assert("scss"@[0] != "bash"@[0]);
    assert("scss"@ != "bash"@);
    reveal_strlit("zsh");
    assert("scss"@.len() != "zsh"@.len());
    assert("scss"@ != "zsh"@);
    reveal_strlit("fish");
    assert("scss"@[0] != "fish"@[0]);
    assert("scss"@ != "fish"@);
    reveal_strlit("html");
    assert("scss"@[0] != "html"@[0]);
    assert("scss"@ != "html"@);
    reveal_strlit("css");
    assert("scss"@.len() != "css"@.len());
    assert("scss"@ != "css"@);
    reveal_strlit("css");
}

/// A file ending in `.txt` is highlighted as nothing.
proof fn lemma_extension_txt(extension: Seq<char>)
    requires
        ascii_lower(extension) == "txt"@,
    ensures
        kind_of_extension(extension) is Some && kind_of_extension(extension).unwrap().0 is None,
{
    reveal_strlit("txt");
    reveal_strlit("rs");
    assert("txt"@.len() != "rs"@.len());
    assert("txt"@ != "rs"@);
    reveal_strlit("toml");
    assert("txt"@.len() != "toml"@.len());
    assert("txt"@ != "toml"@);
    reveal_strlit("md");
    assert("txt"@.len() != "md"@.len());
    assert("txt"@ != "md"@);
    reveal_strlit("markdown");
    assert("txt"@.len() != "markdown"@.len());
    assert("txt"@ != "markdown"@);
    reveal_strlit("json");
    assert("txt"@.len() != "json"@.len());
    assert("txt"@ != "json"@);
    reveal_strlit("jsonc");
    assert("txt"@.len() != "jsonc"@.len());
    assert("txt"@ != "jsonc"@);
    reveal_strlit("yaml");
    assert("txt"@.len() != "yaml"@.len());
    assert("txt"@ != "yaml"@);
    reveal_strlit("yml");
    assert("txt"@[0] != "yml"@[0]);
    assert("txt"@ != "yml"@);
    reveal_strlit("py");
    assert("txt"@.len() != "py"@.len());
    assert("txt"@ != "py"@);
    reveal_strlit("pyi");
    assert("txt"@[0] != "pyi"@[0]);
    assert("txt"@ != "pyi"@);
    reveal_strlit("ts");
    assert("txt"@.len() != "ts"@.len());
    assert("txt"@ != "ts"@);
    reveal_strlit("tsx");
    assert("txt"@[1] != "tsx"@[1]);
    assert("txt"@ != "tsx"@);
    reveal_strlit("js");
    assert("txt"@.len() != "js"@.len());
    assert("txt"@ != "js"@);
    reveal_strlit("jsx");
    assert("txt"@[0] != "jsx"@[0]);
    assert("txt"@ != "jsx"@);
    reveal_strlit("mjs");
    assert("txt"@[0] != "mjs"@[0]);
    assert("txt"@ != "mjs"@);
    reveal_strlit("go");
    assert("txt"@.len() != "go"@.len());
    assert("txt"@ != "go"@);
    reveal_strlit("c");
    assert("txt"@.len() != "c"@.len());
    assert("txt"@ != "c"@);
    reveal_strlit("h");
    assert("txt"@.len() != "h"@.len());
    assert("txt"@ != "h"@);
    reveal_strlit("cpp");
    assert("txt"@[0] != "cpp"@[0]);
    assert("txt"@ != "cpp"@);
    reveal_strlit("cc");
    assert("txt"@.len() != "cc"@.len());
    assert("txt"@ != "cc"@);
    reveal_strlit("hpp");
    assert("txt"@[0] != "hpp"@[0]);
    assert("txt"@ != "hpp"@);
    reveal_strlit("lua");
    assert("txt"@[0] != "lua"@[0]);
    assert("txt"@ != "lua"@);
    reveal_strlit("sh");
    assert("txt"@.len() != "sh"@.len());
    assert("txt"@ != "sh"@);
    reveal_strlit("bash");
    assert("txt"@.len() != "bash"@.len());
    assert("txt"@ != "bash"@);
    reveal_strlit("zsh");
    assert("txt"@[0] != "zsh"@[0]);
    assert("txt"@ != "zsh"@);
    reveal_strlit("fish");
    assert("txt"@.len() != "fish"@.len());
    assert("txt"@ != "fish"@);
    reveal_strlit("html");
    assert("txt"@.len() != "html"@.len());
    assert("txt"@ != "html"@);
    reveal_strlit("css");
    assert("txt"@[0] != "css"@[0]);
    assert("txt"@ != "css"@);
    reveal_strlit("scss");
    assert("txt"@.len() != "scss"@.len());
    assert("txt"@ != "scss"@);
}

/// A file ending in `.lock` is highlighted as nothing.
proof fn lemma_extension_lock(extension: Seq<char>)
    requires
        ascii_lower(extension) == "lock"@,
    ensures
        kind_of_extension(extension) is Some && kind_of_extension(extension).unwrap().0 is None,
{
    reveal_strlit("lock");
    reveal_strlit("rs");
    assert("lock"@.len() != "rs"@.len());
    assert("lock"@ != "rs"@);
    reveal_strlit("toml");
    assert("lock"@[0] != "toml"@[0]);
    assert("lock"@ != "toml"@);
    reveal_strlit("md");
    assert("lock"@.len() != "md"@.len());
    assert("lock"@ != "md"@);
    reveal_strlit("markdown");
    assert("lock"@.len() != "markdown"@.len());
    assert("lock"@ != "markdown"@);
    reveal_strlit("json");
    assert("lock"@[0] != "json"@[0]);
    assert("lock"@ != "json"@);
    reveal_strlit("jsonc");
    assert("lock"@.len() != "jsonc"@.len());
    assert("lock"@ != "jsonc"@);
    reveal_strlit("yaml");
    assert("lock"@[0] != "yaml"@[0]);
    assert("lock"@ != "yaml"@);
    reveal_strlit("yml");
    assert("lock"@.len() != "yml"@.len());
    assert("lock"@ != "yml"@);
    reveal_strlit("py");
    assert("lock"@.len() != "py"@.len());
    assert("lock"@ != "py"@);
    reveal_strlit("pyi");
    assert("lock"@.len() != "pyi"@.len());
    assert("lock"@ != "pyi"@);
    reveal_strlit("ts");
    assert("lock"@.len() != "ts"@.len());
    assert("lock"@ != "ts"@);
    reveal_strlit("tsx");
    assert("lock"@.len() != "tsx"@.len());
    assert("lock"@ != "tsx"@);
    reveal_strlit("js");
    assert("lock"@.len() != "js"@.len());
    assert("lock"@ != "js"@);
    reveal_strlit("jsx");
    assert("lock"@.len() != "jsx"@.len());
    assert("lock"@ != "jsx"@);
    reveal_strlit("mjs");
    assert("lock"@.len() != "mjs"@.len());
    assert("lock"@ != "mjs"@);
    reveal_strlit("go");
    assert("lock"@.len() != "go"@.len());
    assert("lock"@ != "go"@);
    reveal_strlit("c");
    assert("lock"@.len() != "c"@.len());
    assert("lock"@ != "c"@);
    reveal_strlit("h");
    assert("lock"@.len() != "h"@.len());
    assert("lock"@ != "h"@);
    reveal_strlit("cpp");
    assert("lock"@.len() != "cpp"@.len());
    assert("lock"@ != "cpp"@);
    reveal_strlit("cc");
    assert("lock"@.len() != "cc"@.len());
    assert("lock"@ != "cc"@);
    reveal_strlit("hpp");
    assert("lock"@.len() != "hpp"@.len());
    assert("lock"@ != "hpp"@);
    reveal_strlit("lua");
    assert("lock"@.len() != "lua"@.len());
    assert("lock"@ != "lua"@);
    reveal_strlit("sh");
    assert("lock"@.len() != "sh"@.len());
    assert("lock"@ != "sh"@);
    reveal_strlit("bash");
    assert("lock"@[0] != "bash"@[0]);
    assert("lock"@ != "bash"@);
    reveal_strlit("zsh");
    assert("lock"@.len() != "zsh"@.len());
    assert("lock"@ != "zsh"@);
    reveal_strlit("fish");
    assert("lock"@[0] != "fish"@[0]);
    assert("lock"@ != "fish"@);
    reveal_strlit("html");
    assert("lock"@[0] != "html"@[0]);
    assert("lock"@ != "html"@);
    reveal_strlit("css");
    assert("lock"@.len() != "css"@.len());
    assert("lock"@ != "css"@);
    reveal_strlit("scss");
    assert("lock"@[0] != "scss"@[0]);
    assert("lock"@ != "scss"@);
    reveal_strlit("txt");
    assert("lock"@.len() != "txt"@.len());
    assert("lock"@ != "txt"@);
}

/// A file ending in `.png` is highlighted as nothing.
proof fn lemma_extension_png(extension: Seq<char>)
    requires
        ascii_lower(extension) == "png"@,
    ensures
        kind_of_extension(extension) is Some && kind_of_extension(extension).unwrap().0 is None,
{
    reveal_strlit("png");
    reveal_strlit("rs");
    assert("png"@.len() != "rs"@.len());
    assert("png"@ != "rs"@);
    reveal_strlit("toml");
    assert("png"@.len() != "toml"@.len());
    assert("png"@ != "toml"@);
    reveal_strlit("md");
    assert("png"@.len() != "md"@.len());
    assert("png"@ != "md"@);
    reveal_strlit("markdown");
    assert("png"@.len() != "markdown"@.len());
    assert("png"@ != "markdown"@);
    reveal_strlit("json");
    assert("png"@.len() != "json"@.len());
    assert("png"@ != "json"@);
    reveal_strlit("jsonc");
    assert("png"@.len() != "jsonc"@.len());
    assert("png"@ != "jsonc"@);
    reveal_strlit("yaml");
    assert("png"@.len() != "yaml"@.len());
    assert("png"@ != "yaml"@);
    reveal_strlit("yml");
    assert("png"@[0] != "yml"@[0]);
    assert("png"@ != "yml"@);
    reveal_strlit("py");
    assert("png"@.len() != "py"@.len());
    assert("png"@ != "py"@);
    reveal_strlit("pyi");
    assert("png"@[1] != "pyi"@[1]);
    assert("png"@ != "pyi"@);
    reveal_strlit("ts");
    assert("png"@.len() != "ts"@.len());
    assert("png"@ != "ts"@);
    reveal_strlit("tsx");
    assert("png"@[0] != "tsx"@[0]);
    assert("png"@ != "tsx"@);
    reveal_strlit("js");
    assert("png"@.len() != "js"@.len());
    assert("png"@ != "js"@);
    reveal_strlit("jsx");
    assert("png"@[0] != "jsx"@[0]);
    assert("png"@ != "jsx"@);
    reveal_strlit("mjs");
    assert("png"@[0] != "mjs"@[0]);
    assert("png"@ != "mjs"@);
    reveal_strlit("go");
    assert("png"@.len() != "go"@.len());
    assert("png"@ != "go"@);
    reveal_strlit("c");
    assert("png"@.len() != "c"@.len());
    assert("png"@ != "c"@);
    reveal_strlit("h");
    assert("png"@.len() != "h"@.len());
    assert("png"@ != "h"@);
    reveal_strlit("cpp");
    assert("png"@[0] != "cpp"@[0]);
    assert("png"@ != "cpp"@);
    reveal_strlit("cc");
    assert("png"@.len() != "cc"@.len());
    assert("png"@ != "cc"@);
    reveal_strlit("hpp");
    assert("png"@[0] != "hpp"@[0]);
    assert("png"@ != "hpp"@);
    reveal_strlit("lua");
    assert("png"@[0] != "lua"@[0]);
    assert("png"@ != "lua"@);
    reveal_strlit("sh");
    assert("png"@.len() != "sh"@.len());
    assert("png"@ != "sh"@);
    reveal_strlit("bash");
    assert("png"@.len() != "bash"@.len());
    assert("png"@ != "bash"@);
    reveal_strlit("zsh");
    assert("png"@[0] != "zsh"@[0]);
    assert("png"@ != "zsh"@);
    reveal_strlit("fish");
    assert("png"@.len() != "fish"@.len());
    assert("png"@ != "fish"@);
    reveal_strlit("html");
    assert("png"@.len() != "html"@.len());
    assert("png"@ != "html"@);
    reveal_strlit("css");
    assert("png"@[0] != "css"@[0]);
    assert("png"@ != "css"@);
    reveal_strlit("scss");
    assert("png"@.len() != "scss"@.len());
    assert("png"@ != "scss"@);
    reveal_strlit("txt");
    assert("png"@[0] != "txt"@[0]);
    assert("png"@ != "txt"@);
    reveal_strlit("lock");
    assert("png"@.len() != "lock"@.len());
    assert("png"@ != "lock"@);
}

/// A file ending in `.jpg` is highlighted as nothing.
proof fn lemma_extension_jpg(extension: Seq<char>)
    requires
        ascii_lower(extension) == "jpg"@,
    ensures
        kind_of_extension(extension) is Some && kind_of_extension(extension).unwrap().0 is None,
{
    reveal_strlit("jpg");
    reveal_strlit("rs");
    assert("jpg"@.len() != "rs"@.len());
    assert("jpg"@ != "rs"@);
    reveal_strlit("toml");
    assert("jpg"@.len() != "toml"@.len());
    assert("jpg"@ != "toml"@);
    reveal_strlit("md");
    assert("jpg"@.len() != "md"@.len());
    assert("jpg"@ != "md"@);
    reveal_strlit("markdown");
    assert("jpg"@.len() != "markdown"@.len());
    assert("jpg"@ != "markdown"@);
    reveal_strlit("json");
    assert("jpg"@.len() != "json"@.len());
    assert("jpg"@ != "json"@);
    reveal_strlit("jsonc");
    assert("jpg"@.len() != "jsonc"@.len());
    assert("jpg"@ != "jsonc"@);
    reveal_strlit("yaml");
    assert("jpg"@.len() != "yaml"@.len());
    assert("jpg"@ != "yaml"@);
    reveal_strlit("yml");
    assert("jpg"@[0] != "yml"@[0]);
    assert("jpg"@ != "yml"@);
    reveal_strlit("py");
    assert("jpg"@.len() != "py"@.len());
    assert("jpg"@ != "py"@);
    reveal_strlit("pyi");
    assert("jpg"@[0] != "pyi"@[0]);
    assert("jpg"@ != "pyi"@);
    reveal_strlit("ts");
    assert("jpg"@.len() != "ts"@.len());
    assert("jpg"@ != "ts"@);
    reveal_strlit("tsx");
    assert("jpg"@[0] != "tsx"@[0]);
    assert("jpg"@ != "tsx"@);
    reveal_strlit("js");
    assert("jpg"@.len() != "js"@.len());
    assert("jpg"@ != "js"@);
    reveal_strlit("jsx");
    assert("jpg"@[1] != "jsx"@[1]);
    assert("jpg"@ != "jsx"@);
    reveal_strlit("mjs");
    assert("jpg"@[0] != "mjs"@[0]);
    assert("jpg"@ != "mjs"@);
    reveal_strlit("go");
    assert("jpg"@.len() != "go"@.len());
    assert("jpg"@ != "go"@);
    reveal_strlit("c");
    assert("jpg"@.len() != "c"@.len());
    assert("jpg"@ != "c"@);
    reveal_strlit("h");
    assert("jpg"@.len() != "h"@.len());
    assert("jpg"@ != "h"@);
    reveal_strlit("cpp");
    assert("jpg"@[0] != "cpp"@[0]);
    assert("jpg"@ != "cpp"@);
    reveal_strlit("cc");
    assert("jpg"@.len() != "cc"@.len());
    assert("jpg"@ != "cc"@);
    reveal_strlit("hpp");
    assert("jpg"@[0] != "hpp"@[0]);
    assert("jpg"@ != "hpp"@);
    reveal_strlit("lua");
    assert("jpg"@[0] != "lua"@[0]);
    assert("jpg"@ != "lua"@);
    reveal_strlit("sh");
    assert("jpg"@.len() != "sh"@.len());
    assert("jpg"@ != "sh"@);
    reveal_strlit("bash");
    assert("jpg"@.len() != "bash"@.len());
    assert("jpg"@ != "bash"@);
    reveal_strlit("zsh");
    assert("jpg"@[0] != "zsh"@[0]);
    assert("jpg"@ != "zsh"@);
    reveal_strlit("fish");
    assert("jpg"@.len() != "fish"@.len());
    assert("jpg"@ != "fish"@);
    reveal_strlit("html");
    assert("jpg"@.len() != "html"@.len());
    assert("jpg"@ != "html"@);
    reveal_strlit("css");
    assert("jpg"@[0] != "css"@[0]);
    assert("jpg"@ != "css"@);
    reveal_strlit("scss");
    assert("jpg"@.len() != "scss"@.len());
    assert("jpg"@ != "scss"@);
    reveal_strlit("txt");
    assert("jpg"@[0] != "txt"@[0]);
    assert("jpg"@ != "txt"@);
    reveal_strlit("lock");
    assert("jpg"@.len() != "lock"@.len());
    assert("jpg"@ != "lock"@);
    reveal_strlit("png");
    assert("jpg"@[0] != "png"@[0]);
    assert("jpg"@ != "png"@);
}

/// A file ending in `.jpeg` is highlighted as nothing.
proof fn lemma_extension_jpeg(extension: Seq<char>)
    requires
        ascii_lower(extension) == "jpeg"@,
    ensures
        kind_of_extension(extension) is Some && kind_of_extension(extension).unwrap().0 is None,
{
    reveal_strlit("jpeg");
    reveal_strlit("rs");
    assert("jpeg"@.len() != "rs"@.len());
    assert("jpeg"@ != "rs"@);
    reveal_strlit("toml");
    assert("jpeg"@[0] != "toml"@[0]);
    assert("jpeg"@ != "toml"@);
    reveal_strlit("md");
    assert("jpeg"@.len() != "md"@.len());
    assert("jpeg"@ != "md"@);
    reveal_strlit("markdown");
    assert("jpeg"@.len() != "markdown"@.len());
    assert("jpeg"@ != "markdown"@);
    reveal_strlit("json");
    assert("jpeg"@[1] != "json"@[1]);
    assert("jpeg"@ != "json"@);
    reveal_strlit("jsonc");
    assert("jpeg"@.len() != "jsonc"@.len());
    assert("jpeg"@ != "jsonc"@);
    reveal_strlit("yaml");
    assert("jpeg"@[0] != "yaml"@[0]);
    assert("jpeg"@ != "yaml"@);
    reveal_strlit("yml");
    assert("jpeg"@.len() != "yml"@.len());
    assert("jpeg"@ != "yml"@);
    reveal_strlit("py");
    assert("jpeg"@.len() != "py"@.len());
    assert("jpeg"@ != "py"@);
    reveal_strlit("pyi");
    assert("jpeg"@.len() != "pyi"@.len());
    assert("jpeg"@ != "pyi"@);
    reveal_strlit("ts");
    assert("jpeg"@.len() != "ts"@.len());
    assert("jpeg"@ != "ts"@);
    reveal_strlit("tsx");
    assert("jpeg"@.len() != "tsx"@.len());
    assert("jpeg"@ != "tsx"@);
    reveal_strlit("js");
    assert("jpeg"@.len() != "js"@.len());
    assert("jpeg"@ != "js"@);
    reveal_strlit("jsx");
    assert("jpeg"@.len() != "jsx"@.len());
    assert("jpeg"@ != "jsx"@);
    reveal_strlit("mjs");
    assert("jpeg"@.len() != "mjs"@.len());
    assert("jpeg"@ != "mjs"@);
    reveal_strlit("go");
    assert("jpeg"@.len() != "go"@.len());
    assert("jpeg"@ != "go"@);
    reveal_strlit("c");
    assert("jpeg"@.len() != "c"@.len());
    assert("jpeg"@ != "c"@);
    reveal_strlit("h");
    assert("jpeg"@.len() != "h"@.len());
    assert("jpeg"@ != "h"@);
    reveal_strlit("cpp");
    assert("jpeg"@.len() != "cpp"@.len());
    assert("jpeg"@ != "cpp"@);
    reveal_strlit("cc");
    assert("jpeg"@.len() != "cc"@.len());
    assert("jpeg"@ != "cc"@);
    reveal_strlit("hpp");
    assert("jpeg"@.len() != "hpp"@.len());
    assert("jpeg"@ != "hpp"@);
    reveal_strlit("lua");
    assert("jpeg"@.len() != "lua"@.len());
    assert("jpeg"@ != "lua"@);
    reveal_strlit("sh");
    assert("jpeg"@.len() != "sh"@.len());
    assert("jpeg"@ != "sh"@);
    reveal_strlit("bash");
    assert("jpeg"@[0] != "bash"@[0]);
    assert("jpeg"@ != "bash"@);
    reveal_strlit("zsh");
    assert("jpeg"@.len() != "zsh"@.len());
    assert("jpeg"@ != "zsh"@);
    reveal_strlit("fish");
    assert("jpeg"@[0] != "fish"@[0]);
    assert("jpeg"@ != "fish"@);
    reveal_strlit("html");
    assert("jpeg"@[0] != "html"@[0]);
    assert("jpeg"@ != "html"@);
    reveal_strlit("css");
    assert("jpeg"@.len() != "css"@.len());
    assert("jpeg"@ != "css"@);
    reveal_strlit("scss");
    assert("jpeg"@[0] != "scss"@[0]);
    assert("jpeg"@ != "scss"@);
    reveal_strlit("txt");
    assert("jpeg"@.len() != "txt"@.len());
    assert("jpeg"@ != "txt"@);
    reveal_strlit("lock");
    assert("jpeg"@[0] != "lock"@[0]);
    assert("jpeg"@ != "lock"@);
    reveal_strlit("png");
    assert("jpeg"@.len() != "png"@.len());
    assert("jpeg"@ != "png"@);
    reveal_strlit("jpg");
    assert("jpeg"@.len() != "jpg"@.len());
    assert("jpeg"@ != "jpg"@);
}

/// A file ending in `.svg` is highlighted as nothing.
proof fn lemma_extension_svg(extension: Seq<char>)
    requires
        ascii_lower(extension) == "svg"@,
    ensures
        kind_of_extension(extension) is Some && kind_of_extension(extension).unwrap().0 is None,
{
    reveal_strlit("svg");
    reveal_strlit("rs");
    assert("svg"@.len() != "rs"@.len());
    assert("svg"@ != "rs"@);
    reveal_strlit("toml");
    assert("svg"@.len() != "toml"@.len());
    assert("svg"@ != "toml"@);
    reveal_strlit("md");
    assert("svg"@.len() != "md"@.len());
    assert("svg"@ != "md"@);
    reveal_strlit("markdown");
    assert("svg"@.len() != "markdown"@.len());
    assert("svg"@ != "markdown"@);
    reveal_strlit("json");
    assert("svg"@.len() != "json"@.len());
    assert("svg"@ != "json"@);
    reveal_strlit("jsonc");
    assert("svg"@.len() != "jsonc"@.len());
    assert("svg"@ != "jsonc"@);
    reveal_strlit("yaml");
    assert("svg"@.len() != "yaml"@.len());
    assert("svg"@ != "yaml"@);
    reveal_strlit("yml");
    assert("svg"@[0] != "yml"@[0]);
    assert("svg"@ != "yml"@);
    reveal_strlit("py");
    assert("svg"@.len() != "py"@.len());
    assert("svg"@ != "py"@);
    reveal_strlit("pyi");
    assert("svg"@[0] != "pyi"@[0]);
    assert("svg"@ != "pyi"@);
    reveal_strlit("ts");
    assert("svg"@.len() != "ts"@.len());
    assert("svg"@ != "ts"@);
    reveal_strlit("tsx");
    assert("svg"@[0] != "tsx"@[0]);
    assert("svg"@ != "tsx"@);
    reveal_strlit("js");
    assert("svg"@.len() != "js"@.len());
    assert("svg"@ != "js"@);
    reveal_strlit("jsx");
    assert("svg"@[0] != "jsx"@[0]);
    assert("svg"@ != "jsx"@);
    reveal_strlit("mjs");
    assert("svg"@[0] != "mjs"@[0]);
    assert("svg"@ != "mjs"@);
    reveal_strlit("go");
    assert("svg"@.len() != "go"@.len());
    assert("svg"@ != "go"@);
    reveal_strlit("c");
    assert("svg"@.len() != "c"@.len());
    assert("svg"@ != "c"@);
    reveal_strlit("h");
    assert("svg"@.len() != "h"@.len());
    assert("svg"@ != "h"@);
    reveal_strlit("cpp");
    assert("svg"@[0] != "cpp"@[0]);
    assert("svg"@ != "cpp"@);
    reveal_strlit("cc");
    assert("svg"@.len() != "cc"@.len());
    assert("svg"@ != "cc"@);
    reveal_strlit("hpp");
    assert("svg"@[0] != "hpp"@[0]);
    assert("svg"@ != "hpp"@);
    reveal_strlit("lua");
    assert("svg"@[0] != "lua"@[0]);
    assert("svg"@ != "lua"@);
    reveal_strlit("sh");
    assert("svg"@.len() != "sh"@.len());
    assert("svg"@ != "sh"@);
    reveal_strlit("bash");
    assert("svg"@.len() != "bash"@.len());
    assert("svg"@ != "bash"@);
    reveal_strlit("zsh");
    assert("svg"@[0] != "zsh"@[0]);
    assert("svg"@ != "zsh"@);
    reveal_strlit("fish");
    assert("svg"@.len() != "fish"@.len());
    assert("svg"@ != "fish"@);
    reveal_strlit("html");
    assert("svg"@.len() != "html"@.len());
    assert("svg"@ != "html"@);
    reveal_strlit("css");
    assert("svg"@[0] != "css"@[0]);
    assert("svg"@ != "css"@);
    reveal_strlit("scss");
    assert("svg"@.len() != "scss"@.len());
    assert("svg"@ != "scss"@);
    reveal_strlit("txt");
    assert("svg"@[0] != "txt"@[0]);
    assert("svg"@ != "txt"@);
    reveal_strlit("lock");
    assert("svg"@.len() != "lock"@.len());
    assert("svg"@ != "lock"@);
    reveal_strlit("png");
    assert("svg"@[0] != "png"@[0]);
    assert("svg"@ != "png"@);
    reveal_strlit("jpg");
    assert("svg"@[0] != "jpg"@[0]);
    assert("svg"@ != "jpg"@);
    reveal_strlit("jpeg");
    assert("svg"@.len() != "jpeg"@.len());
    assert("svg"@ != "jpeg"@);
}

/// A file ending in `.gif` is highlighted as nothing.
proof fn lemma_extension_gif(extension: Seq<char>)
    requires
        ascii_lower(extension) == "gif"@,
    ensures
        kind_of_extension(extension) is Some && kind_of_extension(extension).unwrap().0 is None,
{
    reveal_strlit("gif");
    reveal_strlit("rs");
    assert("gif"@.len() != "rs"@.len());
    assert("gif"@ != "rs"@);
    reveal_strlit("toml");
    assert("gif"@.len() != "toml"@.len());
    assert("gif"@ != "toml"@);
    reveal_strlit("md");
    assert("gif"@.len() != "md"@.len());
    assert("gif"@ != "md"@);
    reveal_strlit("markdown");
    assert("gif"@.len() != "markdown"@.len());
    assert("gif"@ != "markdown"@);
    reveal_strlit("json");
    assert("gif"@.len() != "json"@.len());
    assert("gif"@ != "json"@);
    reveal_strlit("jsonc");
    assert("gif"@.len() != "jsonc"@.len());
    assert("gif"@ != "jsonc"@);
    reveal_strlit("yaml");
    assert("gif"@.len() != "yaml"@.len());
    assert("gif"@ != "yaml"@);
    reveal_strlit("yml");
    assert("gif"@[0] != "yml"@[0]);
    assert("gif"@ != "yml"@);
    reveal_strlit("py");
    assert("gif"@.len() != "py"@.len());
    assert("gif"@ != "py"@);
    reveal_strlit("pyi");
    assert("gif"@[0] != "pyi"@[0]);
    assert("gif"@ != "pyi"@);
    reveal_strlit("ts");
    assert("gif"@.len() != "ts"@.len());
    assert("gif"@ != "ts"@);
    reveal_strlit("tsx");
    assert("gif"@[0] != "tsx"@[0]);
    assert("gif"@ != "tsx"@);
    reveal_strlit("js");
    assert("gif"@.len() != "js"@.len());
    assert("gif"@ != "js"@);
    reveal_strlit("jsx");
    assert("gif"@[0] != "jsx"@[0]);
    assert("gif"@ != "jsx"@);
    reveal_strlit("mjs");
    assert("gif"@[0] != "mjs"@[0]);
    assert("gif"@ != "mjs"@);
    reveal_strlit("go");
    assert("gif"@.len() != "go"@.len());
    assert("gif"@ != "go"@);
    reveal_strlit("c");
    assert("gif"@.len() != "c"@.len());
    assert("gif"@ != "c"@);
    reveal_strlit("h");
    assert("gif"@.len() != "h"@.len());
    assert("gif"@ != "h"@);
    reveal_strlit("cpp");
    assert("gif"@[0] != "cpp"@[0]);
    assert("gif"@ != "cpp"@);
    reveal_strlit("cc");
    assert("gif"@.len() != "cc"@.len());
    assert("gif"@ != "cc"@);
    reveal_strlit("hpp");
    assert("gif"@[0] != "hpp"@[0]);
    assert("gif"@ != "hpp"@);
    reveal_strlit("lua");
    assert("gif"@[0] != "lua"@[0]);
    assert("gif"@ != "lua"@);
    reveal_strlit("sh");
    assert("gif"@.len() != "sh"@.len());
    assert("gif"@ != "sh"@);
    reveal_strlit("bash");
    assert("gif"@.len() != "bash"@.len());
    assert("gif"@ != "bash"@);
    reveal_strlit("zsh");
    assert("gif"@[0] != "zsh"@[0]);
    assert("gif"@ != "zsh"@);
    reveal_strlit("fish");
    assert("gif"@.len() != "fish"@.len());
    assert("gif"@ != "fish"@);
    reveal_strlit("html");
    assert("gif"@.len() != "html"@.len());
    assert("gif"@ != "html"@);
    reveal_strlit("css");
    assert("gif"@[0] != "css"@[0]);
    assert("gif"@ != "css"@);
    reveal_strlit("scss");
    assert("gif"@.len() != "scss"@.len());
    assert("gif"@ != "scss"@);
    reveal_strlit("txt");
    assert("gif"@[0] != "txt"@[0]);
    assert("gif"@ != "txt"@);
    reveal_strlit("lock");
    assert("gif"@.len() != "lock"@.len());
    assert("gif"@ != "lock"@);
    reveal_strlit("png");
    assert("gif"@[0] != "png"@[0]);
    assert("gif"@ != "png"@);
    reveal_strlit("jpg");
    assert("gif"@[0] != "jpg"@[0]);
    assert("gif"@ != "jpg"@);
    reveal_strlit("jpeg");
    assert("gif"@.len() != "jpeg"@.len());
    assert("gif"@ != "jpeg"@);
    reveal_strlit("svg");
    assert("gif"@[0] != "svg"@[0]);
    assert("gif"@ != "svg"@);
}

/// A file ending in `.webp` is highlighted as nothing.
proof fn lemma_extension_webp(extension: Seq<char>)
    requires
        ascii_lower(extension) == "webp"@,
    ensures
        kind_of_extension(extension) is Some && kind_of_extension(extension).unwrap().0 is None,
{
    reveal_strlit("webp");
    reveal_strlit("rs");
    assert("webp"@.len() != "rs"@.len());
    assert("webp"@ != "rs"@);
    reveal_strlit("toml");
    assert("webp"@[0] != "toml"@[0]);
    assert("webp"@ != "toml"@);
    reveal_strlit("md");
    assert("webp"@.len() != "md"@.len());
    assert("webp"@ != "md"@);
    reveal_strlit("markdown");
    assert("webp"@.len() != "markdown"@.len());
    assert("webp"@ != "markdown"@);
    reveal_strlit("json");
    assert("webp"@[0] != "json"@[0]);
    assert("webp"@ != "json"@);
    reveal_strlit("jsonc");
    assert("webp"@.len() != "jsonc"@.len());
    assert("webp"@ != "jsonc"@);
    reveal_strlit("yaml");
    assert("webp"@[0] != "yaml"@[0]);
    assert("webp"@ != "yaml"@);
    reveal_strlit("yml");
    assert("webp"@.len() != "yml"@.len());
    assert("webp"@ != "yml"@);
    reveal_strlit("py");
    assert("webp"@.len() != "py"@.len());
    assert("webp"@ != "py"@);
    reveal_strlit("pyi");
    assert("webp"@.len() != "pyi"@.len());
    assert("webp"@ != "pyi"@);
    reveal_strlit("ts");
    assert("webp"@.len() != "ts"@.len());
    assert("webp"@ != "ts"@);
    reveal_strlit("tsx");
    assert("webp"@.len() != "tsx"@.len());
    assert("webp"@ != "tsx"@);
    reveal_strlit("js");
    assert("webp"@.len() != "js"@.len());
    assert("webp"@ != "js"@);
    reveal_strlit("jsx");
    assert("webp"@.len() != "jsx"@.len());
    assert("webp"@ != "jsx"@);
    reveal_strlit("mjs");
    assert("webp"@.len() != "mjs"@.len());
    assert("webp"@ != "mjs"@);
    reveal_strlit("go");
    assert("webp"@.len() != "go"@.len());
    assert("webp"@ != "go"@);
    reveal_strlit("c");
    assert("webp"@.len() != "c"@.len());
    assert("webp"@ != "c"@);
    reveal_strlit("h");
    assert("webp"@.len() != "h"@.len());
    assert("webp"@ != "h"@);
    reveal_strlit("cpp");
    assert("webp"@.len() != "cpp"@.len());
    assert("webp"@ != "cpp"@);
    reveal_strlit("cc");
    assert("webp"@.len() != "cc"@.len());
    assert("webp"@ != "cc"@);
    reveal_strlit("hpp");
    assert("webp"@.len() != "hpp"@.len());
    assert("webp"@ != "hpp"@);
    reveal_strlit("lua");
    assert("webp"@.len() != "lua"@.len());
    assert("webp"@ != "lua"@);
    reveal_strlit("sh");
    assert("webp"@.len() != "sh"@.len());
    assert("webp"@ != "sh"@);
    reveal_strlit("bash");
    assert("webp"@[0] != "bash"@[0]);
    assert("webp"@ != "bash"@);
    reveal_strlit("zsh");
    assert("webp"@.len() != "zsh"@.len());
    assert("webp"@ != "zsh"@);
    reveal_strlit("fish");
    assert("webp"@[0] != "fish"@[0]);
    assert("webp"@ != "fish"@);
    reveal_strlit("html");
    assert("webp"@[0] != "html"@[0]);
    assert("webp"@ != "html"@);
    reveal_strlit("css");
    assert("webp"@.len() != "css"@.len());
    assert("webp"@ != "css"@);
    reveal_strlit("scss");
    assert("webp"@[0] != "scss"@[0]);
    assert("webp"@ != "scss"@);
    reveal_strlit("txt");
    assert("webp"@.len() != "txt"@.len());
    assert("webp"@ != "txt"@);
    reveal_strlit("lock");
    assert("webp"@[0] != "lock"@[0]);
    assert("webp"@ != "lock"@);
    reveal_strlit("png");
    assert("webp"@.len() != "png"@.len());
    assert("webp"@ != "png"@);
    reveal_strlit("jpg");
    assert("webp"@.len() != "jpg"@.len());
    assert("webp"@ != "jpg"@);
    reveal_strlit("jpeg");
    assert("webp"@[0] != "jpeg"@[0]);
    assert("webp"@ != "jpeg"@);
    reveal_strlit("svg");
    assert("webp"@.len() != "svg"@.len());
    assert("webp"@ != "svg"@);
    reveal_strlit("gif");
    assert("webp"@.len() != "gif"@.len());
    assert("webp"@ != "gif"@);
}

/// The grammar a file is highlighted with follows its extension, in whatever case it is
/// written: `.py` and `.pyi` are Python, `.rs` Rust, `.sh` and its kin the shell, and so on; a
/// picture, a lock file or plain text is highlighted with none. A whole name the name table
/// knows decides first.
pub proof fn law_the_grammar_follows_the_extension(path: Seq<char>, name: Seq<char>, extension: Seq<char>)
    requires
        file_name(path) == Some(name),
        by_name(name) is None,
        crate::names::extension(name) == Some(extension),
    ensures
        ascii_lower(extension) == "rs"@ ==> kind_of(path).0 == Some("rust"@),
        ascii_lower(extension) == "toml"@ ==> kind_of(path).0 == Some("toml"@),
        ascii_lower(extension) == "md"@ ==> kind_of(path).0 == Some("markdown"@),
        ascii_lower(extension) == "markdown"@ ==> kind_of(path).0 == Some("markdown"@),
        ascii_lower(extension) == "json"@ ==> kind_of(path).0 == Some("json"@),
        ascii_lower(extension) == "jsonc"@ ==> kind_of(path).0 == Some("json"@),
        ascii_lower(extension) == "yaml"@ ==> kind_of(path).0 == Some("yaml"@),
        ascii_lower(extension) == "yml"@ ==> kind_of(path).0 == Some("yaml"@),
        ascii_lower(extension) == "py"@ ==> kind_of(path).0 == Some("python"@),
        ascii_lower(extension) == "pyi"@ ==> kind_of(path).0 == Some("python"@),
        ascii_lower(extension) == "ts"@ ==> kind_of(path).0 == Some("typescript"@),
        ascii_lower(extension) == "tsx"@ ==> kind_of(path).0 == Some("tsx"@),
        ascii_lower(extension) == "js"@ ==> kind_of(path).0 == Some("javascript"@),
        ascii_lower(extension) == "jsx"@ ==> kind_of(path).0 == Some("javascript"@),
        ascii_lower(extension) == "mjs"@ ==> kind_of(path).0 == Some("javascript"@),
        ascii_lower(extension) == "go"@ ==> kind_of(path).0 == Some("go"@),
        ascii_lower(extension) == "c"@ ==> kind_of(path).0 == Some("c"@),
        ascii_lower(extension) == "h"@ ==> kind_of(path).0 == Some("c"@),
        ascii_lower(extension) == "cpp"@ ==> kind_of(path).0 == Some("cpp"@),
        ascii_lower(extension) == "cc"@ ==> kind_of(path).0 == Some("cpp"@),
        ascii_lower(extension) == "hpp"@ ==> kind_of(path).0 == Some("cpp"@),
        ascii_lower(extension) == "lua"@ ==> kind_of(path).0 == Some("lua"@),
        ascii_lower(extension) == "sh"@ ==> kind_of(path).0 == Some("bash"@),
        ascii_lower(extension) == "bash"@ ==> kind_of(path).0 == Some("bash"@),
        ascii_lower(extension) == "zsh"@ ==> kind_of(path).0 == Some("bash"@),
        ascii_lower(extension) == "fish"@ ==> kind_of(path).0 == Some("bash"@),
        ascii_lower(extension) == "html"@ ==> kind_of(path).0 == Some("html"@),
        ascii_lower(extension) == "css"@ ==> kind_of(path).0 == Some("css"@),
        ascii_lower(extension) == "scss"@ ==> kind_of(path).0 == Some("css"@),
        ascii_lower(extension) == "txt"@ ==> kind_of(path).0 is None,
        ascii_lower(extension) == "lock"@ ==> kind_of(path).0 is None,
        ascii_lower(extension) == "png"@ ==> kind_of(path).0 is None,
        ascii_lower(extension) == "jpg"@ ==> kind_of(path).0 is None,
        ascii_lower(extension) == "jpeg"@ ==> kind_of(path).0 is None,
        ascii_lower(extension) == "svg"@ ==> kind_of(path).0 is None,
        ascii_lower(extension) == "gif"@ ==> kind_of(path).0 is None,
        ascii_lower(extension) == "webp"@ ==> kind_of(path).0 is None,
{
    if ascii_lower(extension) == "rs"@ {
        lemma_extension_rs(extension);
    }
    if ascii_lower(extension) == "toml"@ {
        lemma_extension_toml(extension);
    }
    if ascii_lower(extension) == "md"@ {
        lemma_extension_md(extension);
    }
    if ascii_lower(extension) == "markdown"@ {
        lemma_extension_markdown(extension);
    }
    if ascii_lower(extension) == "json"@ {
        lemma_extension_json(extension);
    }
    if ascii_lower(extension) == "jsonc"@ {
        lemma_extension_jsonc(extension);
    }
    if ascii_lower(extension) == "yaml"@ {
        lemma_extension_yaml(extension);
    }
    if ascii_lower(extension) == "yml"@ {
        lemma_extension_yml(extension);
    }
    if ascii_lower(extension) == "py"@ {
        lemma_extension_py(extension);
    }
    if ascii_lower(extension) == "pyi"@ {
        lemma_extension_pyi(extension);
    }
    if ascii_lower(extension) == "ts"@ {
        lemma_extension_ts(extension);
    }
    if ascii_lower(extension) == "tsx"@ {
        lemma_extension_tsx(extension);
    }
    if ascii_lower(extension) == "js"@ {
        lemma_extension_js(extension);
    }
    if ascii_lower(extension) == "jsx"@ {
        lemma_extension_jsx(extension);
    }
    if ascii_lower(extension) == "mjs"@ {
        lemma_extension_mjs(extension);
    }
    if ascii_lower(extension) == "go"@ {
        lemma_extension_go(extension);
    }
    if ascii_lower(extension) == "c"@ {
        lemma_extension_c(extension);
    }
    if ascii_lower(extension) == "h"@ {
        lemma_extension_h(extension);
    }
    if ascii_lower(extension) == "cpp"@ {
        lemma_extension_cpp(extension);
    }
    if ascii_lower(extension) == "cc"@ {
        lemma_extension_cc(extension);
    }
    if ascii_lower(extension) == "hpp"@ {
        lemma_extension_hpp(extension);
    }
    if ascii_lower(extension) == "lua"@ {
        lemma_extension_lua(extension);
    }
    if ascii_lower(extension) == "sh"@ {
        lemma_extension_sh(extension);
    }
    if ascii_lower(extension) == "bash"@ {
        lemma_extension_bash(extension);
    }
    if ascii_lower(extension) == "zsh"@ {
        lemma_extension_zsh(extension);
    }
    if ascii_lower(extension) == "fish"@ {
        lemma_extension_fish(extension);
    }
    if ascii_lower(extension) == "html"@ {
        lemma_extension_html(extension);
    }
    if ascii_lower(extension) == "css"@ {
        lemma_extension_css(extension);
    }
    if ascii_lower(extension) == "scss"@ {
        lemma_extension_scss(extension);
    }
    if ascii_lower(extension) == "txt"@ {
        lemma_extension_txt(extension);
    }
    if ascii_lower(extension) == "lock"@ {
        lemma_extension_lock(extension);
    }
    if ascii_lower(extension) == "png"@ {
        lemma_extension_png(extension);
    }
    if ascii_lower(extension) == "jpg"@ {
        lemma_extension_jpg(extension);
    }
    if ascii_lower(extension) == "jpeg"@ {
        lemma_extension_jpeg(extension);
    }
    if ascii_lower(extension) == "svg"@ {
        lemma_extension_svg(extension);
    }
    if ascii_lower(extension) == "gif"@ {
        lemma_extension_gif(extension);
    }
    if ascii_lower(extension) == "webp"@ {
        lemma_extension_webp(extension);
    }
}

/// What a file ending in `extension` is, when anything.
pub fn of_extension(extension: &str) -> (out: Option<FileType>)
    ensures
        match out {
            Some(k) => kind_of_extension(extension@) == Some(k@),
            None => kind_of_extension(extension@) is None,
        },
{
    let lowered = lowered(extension);
    extension_kind(lowered.as_str())
}

/// What `path` is: its whole name when the name table knows it, else its extension, else
/// unknown.
pub open spec fn kind_of(path: Seq<char>) -> (Option<Seq<char>>, Seq<char>, Seq<char>) {
    match file_name(path) {
        None => unknown_kind(),
        Some(name) => match by_name(name) {
            Some(kind) => kind,
            None => match extension(name) {
                Some(e) => match kind_of_extension(e) {
                    Some(kind) => kind,
                    None => unknown_kind(),
                },
                None => unknown_kind(),
            },
        },
    }
}

/// What `path` is.
///
/// Whole names win over extensions, because `Cargo.lock` is a lock file before it is a `.lock`
/// file and the two want different glyphs.
pub fn of(path: &str) -> (out: FileType)
    ensures
        out@ == kind_of(path@),
{
    match file_name_of(path) {
        None => unknown(),
        Some(name) => match name_kind(name.as_str()) {
            Some(kind) => kind,
            None => match extension_of(name.as_str()) {
                Some(e) => match of_extension(e.as_str()) {
                    Some(kind) => kind,
                    None => unknown(),
                },
                None => unknown(),
            },
        },
    }
}

/// Which grammar highlights `path`, when one does.
pub fn language_of(path: &str) -> (out: Option<&'static str>)
    ensures
        match out {
            Some(l) => kind_of(path@).0 == Some(l@),
            None => kind_of(path@).0 is None,
        },
{
    of(path).language
}

} // verus!
