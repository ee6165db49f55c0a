//! Core of a dotfile-store manager: resolves store entries to symbolic-link
//! relationships, classifies each relationship against observed filesystem
//! state, and plans link creation. All filesystem access is left to the
//! caller, which feeds plain values (paths, file contents, probe results) in
//! and carries the planned actions out.
pub mod linkmanager;
pub mod symlink;
pub mod utils;
