//! Short keys for remote-login addresses: the bookmark entries, the keyed
//! store that holds them, the command line built from an entry, and the
//! decisions of the command surface.

pub mod bookmark;
pub mod words;
pub mod bookmarks;
pub mod args;
pub mod control;
