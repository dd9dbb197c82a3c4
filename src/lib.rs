//! A local note-taking engine: a note store materialised from an append-only
//! change log, the byte format in which that log is persisted, a markdown
//! renderer and a command dispatcher for a UI shell.

pub mod note;
pub mod store;
pub mod render;
pub mod dispatch;
pub mod codec;
