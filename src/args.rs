//! The command surface: what one invocation asks of the store.

use vstd::prelude::*;

verus! {

/// One invocation: a subcommand, or, with none, the key of the bookmark to
/// connect with.
#[derive(Debug)]
pub struct Args {
    pub command: Option<Command>,
    pub key: Option<String>,
}

/// The subcommands.
#[derive(Debug)]
pub enum Command {
    /// List the bookmarks.
    List,
    /// Remove the bookmark under `key`.
    Rm { key: String },
    /// Store `val`, the login address, under `key`, with `ssh_args` split
    /// into extra arguments when given.
    Add { key: String, val: String, ssh_args: Option<String> },
}

} // verus!
