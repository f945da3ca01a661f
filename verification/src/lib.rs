//! Core engine of a plain-text markdown outliner: text buffer editing,
//! block parsing, block rendering structure, the notes file tree, and what
//! the editor's views decide on keys and edits.

pub mod editing;
pub mod models;
pub mod parsing;
pub mod paths;
pub mod services;
pub mod domain;
pub mod infrastructure;
pub mod io;
pub mod interaction;
pub mod session;
