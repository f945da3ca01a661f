pub mod anchors;
pub mod commands;
pub mod document;
pub mod edits;
pub mod extract;
pub mod laws;
pub mod points;
pub mod render;
pub mod rope;
pub mod snapshot;
pub mod syntax;
pub mod text;

pub use commands::{Cmd, Marker};
pub use document::{Document, DocumentError, Patch};
pub use anchors::{Anchor, AnchorId};
pub use snapshot::{BlockKind, RenderBlock};
