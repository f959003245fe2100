//! Where the configuration lives.
//!
//! One directory holds everything a person can change: the settings, the keymap, their own themes,
//! a style sheet of their own, and the grammars and queries for languages the editor does not ship
//! with. Nothing in it has to exist; reading the files is the caller's part.

use vstd::prelude::*;

use crate::names::{joined_path, join, pushed, push_path};
use crate::repo::{after_root, under};
use crate::text::{chars_of, owned, push_char, push_str, string_of, views_of};

verus! {

/// The home directory, when the platform has one.
///
/// Calls `dirs::home_dir`, which reads the environment and the user database; nothing is stated
/// of what it answers.
#[verifier::external_body]
fn home_dir() -> Option<String> {
    dirs::home_dir().map(|home| home.to_string_lossy().into_owned())
}

/// The platform's configuration directory, when there is one.
///
/// Calls `dirs::config_dir`, which reads the environment; nothing is stated of what it answers.
#[verifier::external_body]
fn config_dir() -> Option<String> {
    dirs::config_dir().map(|base| base.to_string_lossy().into_owned())
}

/// `text` as a path, with a leading `~` replaced by `home`: only a `~` on its own or before a
/// separator, and only when there is a home directory.
pub open spec fn home_expanded(text: Seq<char>, home: Option<Seq<char>>) -> Seq<char> {
    if text.len() == 0 || text[0] != '~' {
        text
    } else {
        let rest = text.skip(1);
        if rest.len() > 0 && rest[0] != '/' && rest[0] != '\\' {
            text
        } else {
            match home {
                None => text,
                Some(home) => if rest.len() > 0 {
                    pushed(home, rest.skip(1))
                } else {
                    home
                },
            }
        }
    }
}

/// `text` as a path, with a leading `~` replaced by `home`.
pub fn expand_home_with(text: &str, home: Option<&str>) -> (out: String)
    ensures
        out@ == home_expanded(text@, match home {
            Some(h) => Some(h@),
            None => None,
        }),
{
    let t = chars_of(text);
    if t.len() == 0 || t[0] != '~' {
        return owned(text);
    }
    if t.len() > 1 && t[1] != '/' && t[1] != '\\' {
        assert(text@.skip(1)[0] == t@[1]);
        return owned(text);
    }
    match home {
        None => owned(text),
        Some(h) => {
            if t.len() > 1 {
                assert(text@.skip(1)[0] == t@[1]);
                let mut rest: Vec<char> = Vec::new();
                let mut i: usize = 2;
                while i < t.len()
                    invariant
                        2 <= i <= t@.len(),
                        rest@ == t@.subrange(2, i as int),
                    decreases t.len() - i,
                {
                    rest.push(t[i]);
                    assert(rest@ =~= t@.subrange(2, i + 1));
                    i = i + 1;
                }
                assert(rest@ =~= text@.skip(1).skip(1));
                push_path(h, string_of(rest.as_slice()).as_str())
            } else {
                owned(h)
            }
        },
    }
}

/// `text` as a path, with a leading `~` replaced by the home directory.
///
/// What a configured path is read through. A file somebody writes by hand says `~/Projects`,
/// because that is what every other configuration file they have says. A directory really
/// called `~stuff` is a directory really called `~stuff`.
pub fn expand_home(text: &str) -> (out: String)
    ensures
        exists|home: Option<Seq<char>>| out@ == home_expanded(text@, home),
{
    let home = home_dir();
    match home {
        Some(h) => expand_home_with(text, Some(h.as_str())),
        None => expand_home_with(text, None),
    }
}

/// `path` written with `home` as `~`.
pub open spec fn home_shortened(path: Seq<char>, home: Option<Seq<char>>) -> Seq<char> {
    match home {
        Some(home) if under(path, home) => if after_root(path, home).len() == 0 {
            seq!['~']
        } else {
            seq!['~', '/'] + after_root(path, home)
        },
        _ => path,
    }
}

/// `path` written with `home` as `~`.
pub fn shorten_home_with(path: &str, home: Option<&str>) -> (out: String)
    ensures
        out@ == home_shortened(path@, match home {
            Some(h) => Some(h@),
            None => None,
        }),
{
    let h = match home {
        Some(h) => h,
        None => return owned(path),
    };
    let p = chars_of(path);
    let r = chars_of(h);
    if r.len() > p.len() {
        return owned(path);
    }
    let mut i: usize = 0;
    while i < r.len()
        invariant
            i <= r@.len() <= p@.len(),
            p@ == path@,
            r@ == h@,
            home == Some(h),
            forall|j: int| 0 <= j < i ==> p@[j] == r@[j],
        decreases r.len() - i,
    {
        if p[i] != r[i] {
            assert(p@.take(r@.len() as int)[i as int] != r@[i as int]);
            assert(!under(path@, h@));
            return owned(path);
        }
        i = i + 1;
    }
    assert(p@.take(r@.len() as int) =~= r@);
    let n = r.len();
    if !(p.len() == n || (n > 0 && r[n - 1] == '/') || p[n] == '/') {
        return owned(path);
    }
    let mut at = n;
    while at < p.len() && p[at] == '/'
        invariant
            n <= at <= p@.len(),
            p@ == path@,
            crate::repo::drop_separators(p@.skip(n as int)) == crate::repo::drop_separators(p@.skip(at as int)),
        decreases p.len() - at,
    {
        assert(p@.skip(at as int).drop_first() =~= p@.skip(at + 1));
        at = at + 1;
    }
    assert(crate::repo::drop_separators(p@.skip(at as int)) == p@.skip(at as int));
    let mut out = String::new();
    push_char(&mut out, '~');
    if at == p.len() {
        assert(p@.skip(at as int).len() == 0);
        assert(out@ =~= seq!['~']);
        return out;
    }
    push_char(&mut out, '/');
    let mut k = at;
    while k < p.len()
        invariant
            at <= k <= p@.len(),
            out@ == seq!['~', '/'] + p@.subrange(at as int, k as int),
        decreases p.len() - k,
    {
        push_char(&mut out, p[k]);
        assert(out@ =~= seq!['~', '/'] + p@.subrange(at as int, k + 1));
        k = k + 1;
    }
    assert(p@.subrange(at as int, p@.len() as int) =~= p@.skip(at as int));
    out
}

/// `path` written with the home directory as `~`.
///
/// A person reads `~/Projects` faster than they read their own home directory spelled out.
pub fn shorten_home(path: &str) -> (out: String)
    ensures
        exists|home: Option<Seq<char>>| out@ == home_shortened(path@, home),
{
    let home = home_dir();
    match home {
        Some(h) => shorten_home_with(path, Some(h.as_str())),
        None => shorten_home_with(path, None),
    }
}

/// The view of a path that may be missing.
pub open spec fn path_view(path: Option<String>) -> Option<Seq<char>> {
    match path {
        Some(p) => Some(p@),
        None => None,
    }
}

/// Where the configuration directory is, given what `$ZDT_CONFIG_DIR` holds and the platform's
/// configuration directory: the variable when it is set, else `zdt` under the platform's
/// directory when there is one.
pub fn directory_from(named: Option<String>, base: Option<String>) -> (out: Option<String>)
    ensures
        path_view(out) == match named {
            Some(n) => Some(n@),
            None => match base {
                Some(b) => Some(joined_path(b@, "zdt"@)),
                None => None,
            },
        },
        named is Some ==> out == named,
{
    match named {
        Some(named) => Some(named),
        None => match base {
            Some(base) => Some(join(base.as_str(), "zdt")),
            None => None,
        },
    }
}

/// Where the configuration directory is, given what `$ZDT_CONFIG_DIR` holds: that when it is
/// set, else `zdt` under the platform's configuration directory when there is one.
pub fn directory(named: Option<String>) -> (out: Option<String>)
    ensures
        named is Some ==> out == named,
        named is None ==> match out {
            Some(d) => exists|base: Seq<char>| d@ == joined_path(base, "zdt"@),
            None => true,
        },
{
    if named.is_some() {
        return directory_from(named, None);
    }
    directory_from(named, config_dir())
}

/// The paths inside one configuration directory.
#[derive(Clone, Debug)]
pub struct Paths {
    /// The directory itself.
    pub root: String,
}

impl Paths {
    /// The paths under `root`.
    pub fn at(root: &str) -> (out: Paths)
        ensures
            out.root@ == root@,
    {
        Paths { root: owned(root) }
    }

    /// The paths under the configuration directory, given what `$ZDT_CONFIG_DIR` holds.
    pub fn discover(named: Option<String>) -> (out: Option<Paths>)
        ensures
            named is Some ==> out is Some && out.unwrap().root@ == named.unwrap()@,
    {
        match directory(named) {
            Some(root) => Some(Paths { root }),
            None => None,
        }
    }

    /// The settings.
    pub fn config(&self) -> (out: String)
        ensures
            out@ == joined_path(self.root@, "config.toml"@),
    {
        join(self.root.as_str(), "config.toml")
    }

    /// The keymap read after the shipped one.
    pub fn keymap(&self) -> (out: String)
        ensures
            out@ == joined_path(self.root@, "keymap.toml"@),
    {
        join(self.root.as_str(), "keymap.toml")
    }

    /// The file tree's own keys, read after the shipped ones.
    pub fn tree_keymap(&self) -> (out: String)
        ensures
            out@ == joined_path(self.root@, "keymap-tree.toml"@),
    {
        join(self.root.as_str(), "keymap-tree.toml")
    }

    /// The style sheet installed after everything else.
    pub fn user_css(&self) -> (out: String)
        ensures
            out@ == joined_path(self.root@, "user.css"@),
    {
        join(self.root.as_str(), "user.css")
    }

    /// Where a person's own themes are.
    pub fn themes(&self) -> (out: String)
        ensures
            out@ == joined_path(self.root@, "themes"@),
    {
        join(self.root.as_str(), "themes")
    }

    /// Where grammars the editor does not ship with are.
    pub fn grammars(&self) -> (out: String)
        ensures
            out@ == joined_path(self.root@, "grammars"@),
    {
        join(self.root.as_str(), "grammars")
    }

    /// Where their queries are.
    pub fn queries(&self) -> (out: String)
        ensures
            out@ == joined_path(self.root@, "queries"@),
    {
        join(self.root.as_str(), "queries")
    }

    /// Every file a change to which the editor should notice: the settings, both keymaps, the
    /// style sheet and the themes.
    pub fn watched(&self) -> (out: Vec<String>)
        ensures
            out@.map_values(|p: String| p@) == seq![
                joined_path(self.root@, "config.toml"@),
                joined_path(self.root@, "keymap.toml"@),
                joined_path(self.root@, "keymap-tree.toml"@),
                joined_path(self.root@, "user.css"@),
                joined_path(self.root@, "themes"@),
            ],
    {
        let mut out: Vec<String> = Vec::new();
        out.push(self.config());
        out.push(self.keymap());
        out.push(self.tree_keymap());
        out.push(self.user_css());
        out.push(self.themes());
        assert(out@.map_values(|p: String| p@) =~= seq![
            joined_path(self.root@, "config.toml"@),
            joined_path(self.root@, "keymap.toml"@),
            joined_path(self.root@, "keymap-tree.toml"@),
            joined_path(self.root@, "user.css"@),
            joined_path(self.root@, "themes"@),
        ]);
        out
    }
}

/// Which surface the interface presents on.
#[derive(Clone, Copy, PartialEq, Eq, Structural, Debug)]
pub enum Scheme {
    /// Light.
    Light,
    /// Dark.
    Dark,
    /// Whichever the desktop asked for.
    System,
}

impl Default for Scheme {
    fn default() -> (out: Self)
        ensures
            out == Scheme::Dark,
    {
        Scheme::Dark
    }
}

/// How the gutter numbers its lines.
#[derive(Clone, Copy, PartialEq, Eq, Structural, Debug)]
pub enum LineNumbers {
    /// The line's own number.
    Absolute,
    /// Its distance from the caret, and the caret's own number on its line.
    Relative,
    /// None at all.
    Off,
}

impl Default for LineNumbers {
    fn default() -> (out: Self)
        ensures
            out == LineNumbers::Relative,
    {
        LineNumbers::Relative
    }
}

/// How the pickers search.
#[derive(Clone, Copy, PartialEq, Eq, Structural, Debug)]
pub struct Picker {
    /// Whether to show what is under the caret beside the list.
    pub preview: bool,
    /// How many rows to show at once.
    pub max_results: usize,
    /// How large a file may be before only its head is previewed, in bytes.
    pub preview_max_bytes: u64,
    /// Whether a search with no capitals is case-insensitive.
    pub smart_case: bool,
    /// Whether to look inside files git ignores.
    pub ignored: bool,
    /// Whether to look at files whose names begin with a dot.
    pub hidden: bool,
}

impl Default for Picker {
    fn default() -> (out: Self)
        ensures
            out == (Picker {
                preview: true,
                max_results: 200,
                preview_max_bytes: 2097152u64,
                smart_case: true,
                ignored: false,
                hidden: false,
            }),
    {
        Picker { preview: true, max_results: 200, preview_max_bytes: 2 * 1024 * 1024, smart_case: true, ignored: false, hidden: false }
    }
}

/// What the file tree shows.
#[derive(Clone, Copy, PartialEq, Eq, Structural, Debug)]
pub struct Tree {
    /// Whether it opens with the window.
    pub open: bool,
    /// How wide it is, in pixels.
    pub width: u32,
    /// Whether to show what begins with a dot.
    pub hidden: bool,
    /// Whether to show what git ignores.
    pub ignored: bool,
    /// Whether to move the tree's caret onto the file the editor shows.
    pub follow: bool,
}

impl Default for Tree {
    fn default() -> (out: Self)
        ensures
            out == (Tree { open: false, width: 260, hidden: false, ignored: false, follow: true }),
    {
        Tree { open: false, width: 260, hidden: false, ignored: false, follow: true }
    }
}

/// How leaping behaves.
#[derive(Clone, Debug)]
pub struct Leap {
    /// The keys labels are drawn from, in the order they are handed out.
    ///
    /// The earliest are the ones the fingers are already on, so the order matters as much as the
    /// letters do.
    pub alphabet: String,
}

impl Default for Leap {
    fn default() -> (out: Self)
        ensures
            out.alphabet@ == "sfnjklhodweimbuyvrgtaqpcxz"@,
    {
        Leap { alphabet: owned("sfnjklhodweimbuyvrgtaqpcxz") }
    }
}

/// Which keys are the leaders.
#[derive(Clone, Debug)]
pub struct Keys {
    /// What `<Leader>` stands for, in the keymap's own notation.
    pub leader: String,
    /// What `<LocalLeader>` stands for.
    pub local_leader: String,
}

impl Default for Keys {
    fn default() -> (out: Self)
        ensures
            out.leader@ == "<Space>"@,
            out.local_leader@ == ","@,
    {
        Keys { leader: owned("<Space>"), local_leader: owned(",") }
    }
}

/// A path written from the home directory reads back as it was written: expanding `~` and then
/// writing the home directory as `~` again gives the text back.
///
/// For a home directory that does not end in a separator, and a path after `~/` that does not
/// start with one, which is how both are written.
pub proof fn law_a_home_path_reads_back(rest: Seq<char>, home: Seq<char>)
    requires
        home.len() > 0,
        home.last() != '/',
        rest.len() > 0 ==> rest[0] != '/',
    ensures
        home_shortened(home_expanded(seq!['~'], Some(home)), Some(home)) == seq!['~'],
        rest.len() > 0 ==> home_shortened(home_expanded(seq!['~', '/'] + rest, Some(home)), Some(home)) == seq![
            '~',
            '/',
        ] + rest,
{
    assert(home.take(home.len() as int) =~= home);
    assert(home.skip(home.len() as int) =~= Seq::<char>::empty());
    if rest.len() > 0 {
        let text = seq!['~', '/'] + rest;
        assert(text.skip(1).skip(1) =~= rest);
        assert(text.skip(1)[0] == '/');
        let path = home + seq!['/'] + rest;
        assert(home_expanded(text, Some(home)) == path);
        assert(path.take(home.len() as int) =~= home);
        assert(path[home.len() as int] == '/');
        assert(path.skip(home.len() as int) =~= seq!['/'] + rest);
        assert((seq!['/'] + rest).drop_first() =~= rest);
        assert(crate::repo::drop_separators(rest) == rest);
        assert(crate::repo::drop_separators(seq!['/'] + rest) == rest);
        assert(under(path, home));
        assert(after_root(path, home) == rest);
        assert(seq!['~', '/'] + after_root(path, home) == text);
    }
}

/// A language server the editor knows how to start: what it is known as, the command and its
/// arguments, the file types it serves, and the names that mark the root it is started in.
#[derive(Clone, Debug)]
pub struct Server {
    /// What it is known as in the configuration.
    pub name: String,
    /// The program.
    pub command: String,
    /// What it is started with.
    pub args: Vec<String>,
    /// The grammars whose buffers it serves.
    pub filetypes: Vec<String>,
    /// The names whose presence marks the directory it is started in.
    pub root_markers: Vec<String>,
}

/// How the spec sees a server.
pub open spec fn server_view(s: Server) -> (Seq<char>, Seq<char>, Seq<Seq<char>>, Seq<Seq<char>>, Seq<Seq<char>>) {
    (s.name@, s.command@, views_of(s.args@), views_of(s.filetypes@), views_of(s.root_markers@))
}

/// The servers the editor ships with, in name order.
pub open spec fn shipped() -> Seq<(Seq<char>, Seq<char>, Seq<Seq<char>>, Seq<Seq<char>>, Seq<Seq<char>>)> {
    seq![
        ("basedpyright"@, "basedpyright-langserver"@, seq!["--stdio"@], seq!["python"@], seq![
            "pyproject.toml"@,
            "setup.py"@,
            "requirements.txt"@,
        ]),
        ("gopls"@, "gopls"@, seq![], seq!["go"@], seq!["go.work"@, "go.mod"@]),
        ("lua-language-server"@, "lua-language-server"@, seq![], seq!["lua"@], seq![".luarc.json"@, "stylua.toml"@]),
        ("rust-analyzer"@, "rust-analyzer"@, seq![], seq!["rust"@], seq!["Cargo.toml"@, "rust-project.json"@]),
    ]
}

/// The texts of `items`, owned.
fn owned_all(items: &[&str]) -> (out: Vec<String>)
    ensures
        views_of(out@) == items@.map_values(|t: &str| t@),
{
    let mut out: Vec<String> = Vec::new();
    let mut i: usize = 0;
    while i < items.len()
        invariant
            i <= items@.len(),
            views_of(out@) == items@.take(i as int).map_values(|t: &str| t@),
        decreases items.len() - i,
    {
        let ghost before = views_of(out@);
        out.push(owned(items[i]));
        assert(views_of(out@) =~= before.push(items@[i as int]@));
        assert(items@.take(i + 1).map_values(|t: &str| t@) =~= items@.take(i as int).map_values(|t: &str| t@).push(
            items@[i as int]@,
        ));
        i = i + 1;
    }
    assert(items@.take(i as int) =~= items@);
    out
}

/// One server, from its parts.
fn server(name: &str, command: &str, args: &[&str], filetypes: &[&str], root_markers: &[&str]) -> (out: Server)
    ensures
        server_view(out) == (name@, command@, args@.map_values(|t: &str| t@), filetypes@.map_values(
            |t: &str| t@,
        ), root_markers@.map_values(|t: &str| t@)),
{
    Server {
        name: owned(name),
        command: owned(command),
        args: owned_all(args),
        filetypes: owned_all(filetypes),
        root_markers: owned_all(root_markers),
    }
}

/// The language servers the editor ships with, in name order: what the configuration has when
/// it names none.
pub fn shipped_servers() -> (out: Vec<Server>)
    ensures
        out@.map_values(|s: Server| server_view(s)) == shipped(),
{
    let mut out: Vec<Server> = Vec::new();
    let a = server(
        "basedpyright",
        "basedpyright-langserver",
        &["--stdio"],
        &["python"],
        &["pyproject.toml", "setup.py", "requirements.txt"],
    );
    let b = server("gopls", "gopls", &[], &["go"], &["go.work", "go.mod"]);
    let c = server("lua-language-server", "lua-language-server", &[], &["lua"], &[".luarc.json", "stylua.toml"]);
    let d = server("rust-analyzer", "rust-analyzer", &[], &["rust"], &["Cargo.toml", "rust-project.json"]);
    assert(server_view(a).2 =~= shipped()[0].2);
    assert(server_view(a).3 =~= shipped()[0].3);
    assert(server_view(a).4 =~= shipped()[0].4);
    assert(server_view(a) == shipped()[0]);
    assert(server_view(b).2 =~= shipped()[1].2);
    assert(server_view(b).3 =~= shipped()[1].3);
    assert(server_view(b).4 =~= shipped()[1].4);
    assert(server_view(c).2 =~= shipped()[2].2);
    assert(server_view(c).3 =~= shipped()[2].3);
    assert(server_view(c).4 =~= shipped()[2].4);
    assert(server_view(d).2 =~= shipped()[3].2);
    assert(server_view(d).3 =~= shipped()[3].3);
    assert(server_view(d).4 =~= shipped()[3].4);
    out.push(a);
    out.push(b);
    out.push(c);
    out.push(d);
    assert(out@.map_values(|s: Server| server_view(s)) =~= shipped());
    out
}

} // verus!
