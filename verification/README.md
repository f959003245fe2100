# zdt

The logic of a code editor with a git panel and a drawing canvas, verified with Verus.

`src/` is the library. Each module states in its contracts what it decides, over sequences of
characters and lines:

- text and files: `fs` (encodings and line endings, with the round trip proved), `text`, `names`,
  `language`, `paths`, `project`, `config`, `state`, `theme`;
- the file tree: `tree` (what is open and the rows drawn), `listing` (which entries show, and
  their order), `watch`;
- search: `search::files`, `search::fuzzy`, `search::grep`;
- git: `diff` (an edit script between two texts that keeps as many lines as any script can,
  cut into hunks), `stage` (applying hunks, with
  the proof that staging every hunk of a diff is staging the file), `gutter`, `graph`, `log`,
  `refs`, `status`, `commit`, `checkpoint`, `worktree`, `ignore`, `repo`;
- the drawing editor: `drawing` (colours, layer bands, tools, typing), `actions`, and
  `renaming` (pointing a pasted or stamped copy's references at the copies).

`app/` is the rest: reading and writing files, the repository through gix and `git`, walks and
searches on worker threads, the file system watcher, the configuration file through serde, and
the arithmetic of paint, which is floating point.

`tests/` runs the library on concrete values.

Ordered collections. The file tree keeps its open directories and what each was read to hold,
and the configuration keeps its language servers, in `Vec`s sorted by path or by name, with that
order as an invariant, where a `BTreeSet` or `BTreeMap` would otherwise do. vstd specifies what a
`BTreeSet` or `BTreeMap` holds, but the order it is walked in only for keys whose ordering obeys
its comparison specification (`obeys_cmp`), and it states that for no `String` or path; the
rows the tree draws and the order `expanded` answers in depend on exactly that order.
