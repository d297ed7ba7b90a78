//! The command-line surface: subcommands and their arguments, and the
//! decisions commands make from their arguments alone.

use vstd::prelude::*;

verus! {

/// The command line: a subcommand, or none (the TUI).
pub struct Cli {
    pub cmd: Option<Cmd>,
}

/// `--method` values.
#[derive(Clone, Copy, PartialEq, Eq, Structural, Debug)]
pub enum MethodArg {
    Symlink,
    Copy,
}

/// Subcommands.
pub enum Cmd {
    /// Download (or reuse the cache) and install skills.
    Add {
        source: String,
        skill: Vec<String>,
        target: Vec<String>,
        global: bool,
        method: Option<MethodArg>,
        yes: bool,
    },
    /// List installed skills.
    List { tag: Option<String>, target: Option<String>, global: bool },
    /// Remove installed skills (record first, then the disk).
    Remove { skills: Vec<String>, target: Vec<String>, tag: Option<String> },
    /// Update by the two-level policy; named skills are forced.
    Update {
        skills: Vec<String>,
        target: Option<String>,
        all: bool,
        dry_run: bool,
        force: bool,
    },
    /// Set the tags of an install.
    Tag { skill: String, tags: Vec<String>, target: String, remove: bool },
    /// Set an auto-update flag; exactly one of on / off / inherit.
    AutoUpdate {
        skill: Option<String>,
        target: Option<String>,
        source: Option<String>,
        on: bool,
        off: bool,
        inherit: bool,
    },
    /// Edit `config.toml`.
    Config { sub: ConfigCmd },
    /// Enter the TUI.
    Tui,
    /// Bookmark a source, or list bookmarks.
    Fav { source: Option<String>, skill: Vec<String>, sub: Option<FavSub> },
    /// Serve the web UI.
    Ui { port: Option<u16>, no_open: bool },
}

/// `config` subcommands.
pub enum ConfigCmd {
    Get { key: String },
    SetKey { key: String, value: String },
    Targets { sub: TargetsCmd },
}

/// `config targets` subcommands.
pub enum TargetsCmd {
    Add { name: String, path: String },
    Remove { name: String },
}

/// `fav` subcommands.
pub enum FavSub {
    /// Remove a bookmark (or some of its skills).
    Rm { source: String, skill: Vec<String> },
    /// Install from a bookmark.
    Install {
        source: String,
        skill: Vec<String>,
        target: Vec<String>,
        global: bool,
        method: Option<MethodArg>,
        yes: bool,
    },
}

} // verus!
