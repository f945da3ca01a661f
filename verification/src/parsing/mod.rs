//! Reading markdown into blocks.
pub mod blocks;
pub mod events;
pub mod processor;
pub mod text;
