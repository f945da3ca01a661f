//! The outline view of a notes folder: documents as outlines of items, the
//! files of the folder, and the service that reads them.
pub mod markdown;
pub mod models;
pub mod outline;
pub mod services;
