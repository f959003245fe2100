//! The editor's logic: documents, project state, search, version control and drawings.

pub mod text;
pub mod diff;
pub mod repo;
pub mod stage;
pub mod log;
pub mod graph;
pub mod gutter;
pub mod fs;
pub mod names;
pub mod language;
pub mod tree;
pub mod listing;
pub mod config;
pub mod state;
pub mod theme;
pub mod watch;
pub mod project;
pub mod status;
pub mod refs;
pub mod ignore;
pub mod checkpoint;
pub mod commit;
pub mod worktree;
pub mod search;
pub mod drawing;
pub mod actions;
pub mod renaming;
pub mod paths;
