pub mod chars;
pub mod document;
pub mod file_tree;
pub mod state;
pub mod markdown_file;
