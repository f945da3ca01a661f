use markdown_neuraxis::models::markdown_file::MarkdownFile;

#[test]
fn display_names_drop_the_markdown_extension() {
    let f = MarkdownFile::new("journal/2024-01-15.md".to_string());
    assert_eq!(f.relative_path(), "journal/2024-01-15.md");
    assert_eq!(f.display_name(), "2024-01-15");
    assert_eq!(f.display_path(), "journal/2024-01-15");

    let f = MarkdownFile::from_relative_str("1_Projects/notes.txt");
    assert_eq!(f.display_name(), "notes.txt");
    assert_eq!(f.display_path(), "1_Projects/notes.txt");
}

#[test]
fn display_name_is_the_last_real_component() {
    assert_eq!(MarkdownFile::from_relative_str("a/b.md/.").display_name(), "b");
    assert_eq!(MarkdownFile::from_relative_str("a//b.md").display_name(), "b");
    assert_eq!(MarkdownFile::from_relative_str("a/..").display_name(), "Untitled");
    assert_eq!(MarkdownFile::from_relative_str("").display_name(), "Untitled");
    assert_eq!(MarkdownFile::from_relative_str(".md").display_name(), "");
}
