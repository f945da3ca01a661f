//! The document service: loading a file as an outline, listing the notes
//! and checking their layout, over any file service.
use crate::domain::markdown::{outline_of, MarkdownParser, PulldownMarkdownParser};
use crate::domain::models::{Document, FileEntry, NotesStructure};
use crate::domain::outline::outlines_view;
use crate::domain::services::{FileService, FileServiceError};
use vstd::prelude::*;

verus! {

/// Why the document service failed.
#[derive(Debug, Clone, PartialEq, Eq)]
pub enum DocumentServiceError {
    /// The file service failed.
    FileService(FileServiceError),
    /// The text could not be read, with the reason.
    Parse(String),
}

/// Loads documents through a file service and the markdown reader.
pub struct DocumentService<F: FileService> {
    pub file_service: F,
    pub parser: PulldownMarkdownParser,
}

impl<F: FileService> DocumentService<F> {
    pub fn new(file_service: F, parser: PulldownMarkdownParser) -> (s: DocumentService<F>)
        ensures
            s.file_service == file_service,
    {
        DocumentService { file_service, parser }
    }

    /// The file at `path`, read as an outline of the text that the file
    /// service gave for `path`; the file service's error where it gave one.
    pub fn load_document(&self, path: &str) -> (r: Result<Document, DocumentServiceError>)
        ensures
            match r {
                Ok(d) => d.path@ == path@ && exists|c: String|
                    #![trigger self.file_service.reads(path@, Ok(c))]
                    self.file_service.reads(path@, Ok(c)) && outlines_view(d.outline@) == outline_of(c@),
                Err(DocumentServiceError::FileService(e)) => self.file_service.reads(path@, Err(e)),
                Err(DocumentServiceError::Parse(_)) => false,
            },
    {
        match self.file_service.read_file(path) {
            Ok(content) => {
                let d = self.parser.parse(content.as_str(), path.to_owned());
                assert(self.file_service.reads(path@, Ok(content)) && outlines_view(d.outline@) == outline_of(content@));
                Ok(d)
            },
            Err(e) => Err(DocumentServiceError::FileService(e)),
        }
    }

    /// The markdown files below `root`, as the file service lists them.
    pub fn scan_markdown_files(&self, root: &str) -> (r: Result<Vec<FileEntry>, DocumentServiceError>)
        ensures
            match r {
                Ok(v) => self.file_service.scans(root@, Ok(v)),
                Err(DocumentServiceError::FileService(e)) => self.file_service.scans(root@, Err(e)),
                Err(DocumentServiceError::Parse(_)) => false,
            },
    {
        match self.file_service.scan_markdown_files(root) {
            Ok(v) => Ok(v),
            Err(e) => Err(DocumentServiceError::FileService(e)),
        }
    }

    /// The notes layout below `root`, as the file service finds it.
    pub fn validate_notes_structure(&self, root: &str) -> (r: Result<NotesStructure, DocumentServiceError>)
        ensures
            match r {
                Ok(n) => self.file_service.validates(root@, Ok(n)),
                Err(DocumentServiceError::FileService(e)) => self.file_service.validates(root@, Err(e)),
                Err(DocumentServiceError::Parse(_)) => false,
            },
    {
        match self.file_service.validate_notes_structure(root) {
            Ok(n) => Ok(n),
            Err(e) => Err(DocumentServiceError::FileService(e)),
        }
    }
}

/// The services of the application, over a file service.
pub struct ApplicationServices<F: FileService> {
    pub document_service: DocumentService<F>,
}

impl<F: FileService> ApplicationServices<F> {
    /// The services over the given file service and the markdown reader.
    pub fn with_mock_file_service(file_service: F) -> (s: ApplicationServices<F>)
        ensures
            s.document_service.file_service == file_service,
    {
        ApplicationServices { document_service: DocumentService::new(file_service, PulldownMarkdownParser::new()) }
    }
}

} // verus!
