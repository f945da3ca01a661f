use markdown_neuraxis::domain::markdown::{MarkdownParser, PulldownMarkdownParser};
use markdown_neuraxis::domain::models::{FileEntry, NotesStructure, OutlineItem};
use markdown_neuraxis::domain::outline::build_hierarchy;
use markdown_neuraxis::domain::services::{FileService, FileServiceError};
use markdown_neuraxis::infrastructure::MockFileService;
use markdown_neuraxis::io::{file_tree_verdict, notes_dir_verdict, scan_markdown_files, scan_verdict, IoError};
use markdown_neuraxis::services::{ApplicationServices, DocumentService, DocumentServiceError};

#[test]
fn test_build_flat_hierarchy() {
    let items = vec![
        OutlineItem::new("Item 1".to_string(), 0),
        OutlineItem::new("Item 2".to_string(), 0),
    ];

    let result = build_hierarchy(items);
    assert_eq!(result.len(), 2);
    assert_eq!(result[0].content, "Item 1");
    assert_eq!(result[1].content, "Item 2");
}

#[test]
fn test_build_nested_hierarchy() {
    let items = vec![
        OutlineItem::new("Parent".to_string(), 0),
        OutlineItem::new("Child 1".to_string(), 1),
        OutlineItem::new("Child 2".to_string(), 1),
    ];

    let result = build_hierarchy(items);
    assert_eq!(result.len(), 1);
    assert_eq!(result[0].content, "Parent");
    assert_eq!(result[0].children.len(), 2);
    assert_eq!(result[0].children[0].content, "Child 1");
    assert_eq!(result[0].children[1].content, "Child 2");
}

#[test]
fn deeper_items_before_the_first_top_item_go_to_it() {
    let items = vec![
        OutlineItem::new("Early".to_string(), 1),
        OutlineItem::new("Top".to_string(), 0),
    ];
    let result = build_hierarchy(items);
    assert_eq!(result.len(), 1);
    assert_eq!(result[0].children.len(), 1);
    assert_eq!(result[0].children[0].content, "Early");
}

#[test]
fn deeper_items_without_a_top_item_are_left_out() {
    let items = vec![OutlineItem::new("Lonely".to_string(), 2)];
    assert!(build_hierarchy(items).is_empty());
}

#[test]
fn test_parse_simple_markdown() {
    let parser = PulldownMarkdownParser::new();
    let content = "- First item\n- Second item";
    let doc = parser.parse(content, "/test.md".to_string());

    assert_eq!(doc.outline.len(), 2);
    assert_eq!(doc.outline[0].content, "First item");
    assert_eq!(doc.outline[1].content, "Second item");
}

#[test]
fn test_parse_nested_markdown() {
    let parser = PulldownMarkdownParser::new();
    let content = "- Parent\n  - Child";
    let doc = parser.parse(content, "/test.md".to_string());

    assert_eq!(doc.outline.len(), 1);
    assert_eq!(doc.outline[0].content, "Parent");
    assert_eq!(doc.outline[0].children.len(), 1);
    assert_eq!(doc.outline[0].children[0].content, "Child");
}

#[test]
fn set_metadata_replaces_the_value() {
    let mut item = OutlineItem::new("x".to_string(), 0);
    item.set_metadata("k".to_string(), "1".to_string());
    item.set_metadata("j".to_string(), "2".to_string());
    item.set_metadata("k".to_string(), "3".to_string());
    assert_eq!(item.metadata.len(), 2);
    assert!(item.metadata.contains(&("j".to_string(), "2".to_string())));
    assert!(item.metadata.contains(&("k".to_string(), "3".to_string())));
}

#[test]
fn outline_items_take_children() {
    let mut parent = OutlineItem::with_children("p".to_string(), 0, vec![]);
    parent.add_child(OutlineItem::new("c".to_string(), 1));
    assert_eq!(parent.children.len(), 1);
    assert_eq!(parent.children[0].content, "c");
}

#[test]
fn file_entries_know_markdown() {
    let e = FileEntry::new("/notes/pages/a.md".to_string(), false);
    assert_eq!(e.name, "a.md");
    assert!(e.is_markdown());
    assert!(!FileEntry::new("/notes/pages/a.txt".to_string(), false).is_markdown());
    assert!(!FileEntry::new("/notes/pages/x.md".to_string(), true).is_markdown());
    assert!(!FileEntry::new("/notes/.md".to_string(), false).is_markdown());
    assert_eq!(FileEntry::new("/".to_string(), true).name, "Unknown");
}

#[test]
fn notes_structure_joins_its_folders() {
    let n = NotesStructure::new("/notes".to_string());
    assert_eq!(n.pages_dir, "/notes/pages");
    assert_eq!(n.journal_dir, "/notes/journal");
    assert_eq!(n.assets_dir, "/notes/assets");
    let m = NotesStructure::new("/notes/".to_string());
    assert_eq!(m.pages_dir, "/notes/pages");
}

#[test]
fn test_mock_file_service() {
    let mut mock = MockFileService::new();
    mock.add_file("/test.md", "# Test content");

    let content = mock.read_file("/test.md").unwrap();
    assert_eq!(content, "# Test content");

    let files = mock.scan_markdown_files("/").unwrap();
    assert_eq!(files.len(), 1);
    assert_eq!(files[0].path, "/test.md");
}

#[test]
fn mock_reads_back_what_was_stored_last() {
    let mut mock = MockFileService::new();
    mock.add_file("/a//b.md", "one");
    mock.add_file("/a/b.md", "two");
    assert_eq!(mock.files.len(), 1);
    assert_eq!(mock.read_file("/a/b.md").unwrap(), "two");
    assert_eq!(mock.files[0].0, "/a//b.md");
    assert!(mock.file_exists("/a/./b.md"));
    assert_eq!(
        mock.read_file("/missing.md"),
        Err(FileServiceError::NotFound("/missing.md".to_string()))
    );
}

#[test]
fn test_document_service_with_mock() {
    let mut mock_fs = MockFileService::new();
    mock_fs.add_file("/test.md", "- Item 1\n- Item 2");

    let services = ApplicationServices::with_mock_file_service(mock_fs);
    let doc = services.document_service.load_document("/test.md").unwrap();

    assert_eq!(doc.outline.len(), 2);
    assert_eq!(doc.outline[0].content, "Item 1");
    assert_eq!(doc.outline[1].content, "Item 2");
}

#[test]
fn document_service_passes_on_the_file_service_error() {
    let services = ApplicationServices::with_mock_file_service(MockFileService::new());
    let r = services.document_service.load_document("/missing.md");
    assert_eq!(r.unwrap_err(), DocumentServiceError::FileService(FileServiceError::NotFound("/missing.md".to_string())));
}

#[test]
fn test_scan_files_with_mock() {
    let mut mock_fs = MockFileService::new();
    mock_fs.add_file("/notes/test1.md", "# Test 1");
    mock_fs.add_file("/notes/test2.md", "# Test 2");

    let service = DocumentService::new(mock_fs, PulldownMarkdownParser::new());
    let files = service.scan_markdown_files("/notes").unwrap();

    assert_eq!(files.len(), 2);
}

#[test]
fn user_workflow_scan_and_load_files() {
    let mut mock_fs = MockFileService::new();
    mock_fs.add_file("/notes/pages/test1.md", "- First item\n- Second item");
    mock_fs.add_file("/notes/pages/test2.md", "- Parent\n  - Child");

    let files = mock_fs.scan_markdown_files("/notes").unwrap();

    assert_eq!(files.len(), 2);
    assert!(files.iter().any(|f| f.name == "test1.md"));
    assert!(files.iter().any(|f| f.name == "test2.md"));
}

#[test]
fn user_workflow_select_file_and_parse_outline() {
    let mut mock_fs = MockFileService::new();
    mock_fs.add_file(
        "/notes/pages/nested.md",
        "- Parent item\n  - Child item\n  - Another child\n- Second parent",
    );
    let service = DocumentService::new(mock_fs, PulldownMarkdownParser::new());
    let document = service.load_document("/notes/pages/nested.md").unwrap();

    assert_eq!(document.outline.len(), 2);
    assert_eq!(document.outline[0].content, "Parent item");
    assert_eq!(document.outline[0].children.len(), 2);
    assert_eq!(document.outline[0].children[0].content, "Child item");
    assert_eq!(document.outline[0].children[1].content, "Another child");
    assert_eq!(document.outline[1].content, "Second parent");
    assert_eq!(document.outline[1].children.len(), 0);
}

#[test]
fn user_workflow_handle_invalid_notes_directory() {
    let result = scan_markdown_files("/nonexistent/notes/root", &vec![]);
    assert!(result.is_err());
    match result.unwrap_err() {
        IoError::InvalidNotesDir(m) => assert!(m.contains("pages directory")),
        other => panic!("unexpected error {other:?}"),
    }
}

#[test]
fn user_workflow_deep_nesting_outline() {
    let parser = PulldownMarkdownParser::new();
    let document = parser.parse(
        "- Level 0\n  - Level 1\n    - Level 2\n      - Level 3",
        "deep.md".to_string(),
    );

    assert_eq!(document.outline.len(), 1);
    assert_eq!(document.outline[0].content, "Level 0");
    assert_eq!(document.outline[0].children.len(), 3);
    assert_eq!(document.outline[0].children[0].content, "Level 3");
    assert_eq!(document.outline[0].children[1].content, "Level 2");
    assert_eq!(document.outline[0].children[2].content, "Level 1");
}

#[test]
fn notes_dir_verdicts() {
    assert_eq!(
        notes_dir_verdict(false, false, false),
        Err(IoError::InvalidNotesDir("Directory does not exist".to_string()))
    );
    assert_eq!(
        notes_dir_verdict(true, false, true),
        Err(IoError::InvalidNotesDir("Directory does not exist".to_string()))
    );
    assert_eq!(
        notes_dir_verdict(true, true, false),
        Err(IoError::InvalidNotesDir("pages directory not found".to_string()))
    );
    assert_eq!(notes_dir_verdict(true, true, true), Ok(()));
}

#[test]
fn scan_verdicts() {
    let listing = vec![
        "/n/pages/b.md".to_string(),
        "/n/pages/notes.txt".to_string(),
        "/n/pages/a.md".to_string(),
    ];
    assert_eq!(
        scan_verdict(true, &listing),
        Ok(vec!["/n/pages/a.md".to_string(), "/n/pages/b.md".to_string()])
    );
    assert_eq!(
        scan_verdict(false, &listing),
        Err(IoError::InvalidNotesDir("pages directory not found".to_string()))
    );
}

#[test]
fn file_tree_verdicts() {
    let listing = vec!["/n/pages/b.md".to_string(), "/n/pages/x.txt".to_string(), "/n/pages/a.md".to_string()];
    let tree = file_tree_verdict("/n", true, &listing).unwrap();
    assert_eq!(tree.root.path, "/n/pages");
    assert!(tree.root.is_expanded);
    let names: Vec<&str> = tree.root.children.iter().map(|c| c.name.as_str()).collect();
    assert_eq!(names, vec!["a.md", "b.md"]);
    assert!(matches!(
        file_tree_verdict("/n", false, &listing),
        Err(IoError::InvalidNotesDir(m)) if m == "pages directory not found"
    ));
}
