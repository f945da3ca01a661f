//! The file service: what the outline view needs from the notes folder.
use super::models::{FileEntry, NotesStructure};
use vstd::prelude::*;

verus! {

/// Why the file service failed.
#[derive(Debug, Clone, PartialEq, Eq)]
pub enum FileServiceError {
    /// Nothing is at the path.
    NotFound(String),
    /// The system failed, with its message.
    Io(String),
    /// The path is not what was expected, with the reason.
    InvalidPath(String),
}

/// Access to the files of a notes folder. Each service says, for each of
/// its methods, which answers it may give: reading a path, listing and
/// checking a notes folder.
pub trait FileService {
    /// Whether `r` is an answer the service may give to reading `path`;
    /// any answer, for a service that says no more.
    open spec fn reads(&self, path: Seq<char>, r: Result<String, FileServiceError>) -> bool {
        true
    }

    /// Whether `r` is an answer the service may give to listing the
    /// markdown files below `root`; any answer, for a service that says no
    /// more.
    open spec fn scans(&self, root: Seq<char>, r: Result<Vec<FileEntry>, FileServiceError>) -> bool {
        true
    }

    /// Whether `r` is an answer the service may give to checking the notes
    /// layout below `root`; any answer, for a service that says no more.
    open spec fn validates(&self, root: Seq<char>, r: Result<NotesStructure, FileServiceError>) -> bool {
        true
    }

    fn read_file(&self, path: &str) -> (r: Result<String, FileServiceError>)
        ensures
            self.reads(path@, r),
    ;

    fn scan_markdown_files(&self, root: &str) -> (r: Result<Vec<FileEntry>, FileServiceError>)
        ensures
            self.scans(root@, r),
    ;

    fn file_exists(&self, path: &str) -> bool;

    fn validate_notes_structure(&self, root: &str) -> (r: Result<NotesStructure, FileServiceError>)
        ensures
            self.validates(root@, r),
    ;
}

} // verus!
