//! The rules of a note-taking application, verified: how stored rich text becomes
//! plain text, how a flat table of items with parent references becomes paths and
//! a tree, how notes are searched and ranked, which note a title stands for, and
//! when a change of the configuration file is announced.
//!
//! The library reads no store and writes to no terminal. Its callers hand it the
//! rows they read and the events they saw, and show what it returns.

pub mod acyclic;
pub mod chars;
pub mod cli;
pub mod config;
pub mod hierarchy;
pub mod item;
pub mod normalize;
pub mod plain_text;
pub mod search;
pub mod theme;
pub mod watcher;
