use markdown_neuraxis::models::document::{ContentBlock, TextSegment};
use markdown_neuraxis::models::document::segments_to_markdown;
use markdown_neuraxis::parsing::blocks::{from_markdown, parse_multiple_blocks, parse_wiki_links};
use markdown_neuraxis::parsing::processor::parse_markdown;

#[test]
fn test_heading_from_markdown() {
    let result = from_markdown("### Test Heading").unwrap();
    assert_eq!(
        result,
        ContentBlock::Heading {
            level: 3,
            text: "Test Heading".to_string()
        }
    );
}

#[test]
fn test_paragraph_from_markdown() {
    let result = from_markdown("This is a [[wiki-link]] test.").unwrap();
    if let ContentBlock::Paragraph { segments } = result {
        assert_eq!(segments.len(), 3);
        assert_eq!(segments[0], TextSegment::Text("This is a ".to_string()));
        assert_eq!(
            segments[1],
            TextSegment::WikiLink {
                target: "wiki-link".to_string(),
            }
        );
        assert_eq!(segments[2], TextSegment::Text(" test.".to_string()));
    } else {
        panic!("Expected paragraph");
    }
}

#[test]
fn test_parse_multiple_blocks_single_paragraph() {
    let markdown = "This is a single paragraph.";
    let blocks = parse_multiple_blocks(markdown);
    assert_eq!(blocks.len(), 1);
    assert!(matches!(blocks[0], ContentBlock::Paragraph { .. }));
}

#[test]
fn test_parse_multiple_blocks_split_paragraphs() {
    let markdown = "First paragraph.\n\nSecond paragraph.";
    let blocks = parse_multiple_blocks(markdown);
    assert_eq!(blocks.len(), 2);
    assert!(matches!(blocks[0], ContentBlock::Paragraph { .. }));
    assert!(matches!(blocks[1], ContentBlock::Paragraph { .. }));
}

#[test]
fn test_parse_multiple_blocks_mixed_content() {
    let markdown = "# Heading\n\nThis is a paragraph.\n\n- List item";
    let blocks = parse_multiple_blocks(markdown);
    assert_eq!(blocks.len(), 3);
    assert!(matches!(blocks[0], ContentBlock::Heading { level: 1, .. }));
    assert!(matches!(blocks[1], ContentBlock::Paragraph { .. }));
    assert!(matches!(blocks[2], ContentBlock::BulletList { .. }));
}

#[test]
fn parse_multiple_blocks_splits_at_crlf_blank_lines() {
    let blocks = parse_multiple_blocks("First paragraph.\r\n\r\nSecond paragraph.");
    assert_eq!(
        blocks,
        vec![
            ContentBlock::Paragraph { segments: vec![TextSegment::Text("First paragraph.".to_string())] },
            ContentBlock::Paragraph { segments: vec![TextSegment::Text("Second paragraph.".to_string())] },
        ]
    );
    let blocks = parse_multiple_blocks("One\r\n\r\nTwo\n\nThree");
    assert_eq!(blocks.len(), 3);
    let blocks = parse_multiple_blocks("One\r\nstill one");
    assert_eq!(blocks.len(), 1);
}

#[test]
fn test_parse_multiple_blocks_empty_input() {
    let blocks = parse_multiple_blocks("");
    assert_eq!(blocks.len(), 0);
}

#[test]
fn test_numbered_list_parsing_from_editor() {
    // Test parsing numbered list that would happen when user types in the editor
    let markdown = "1. first item\n2. second item\n3. third item";

    let result = from_markdown(markdown).unwrap();

    if let ContentBlock::NumberedList { items } = result {
        assert_eq!(items.len(), 3);
        assert_eq!(items[0].1.content, "first item");
        assert_eq!(items[1].1.content, "second item");
        assert_eq!(items[2].1.content, "third item");
    } else {
        panic!("Expected numbered list, got: {result:?}");
    }
}

#[test]
fn test_bullet_list_parsing_from_editor() {
    // Test parsing that would happen when user types a bullet list in the editor
    let markdown = "- bullet one\n- bullet two\n- bullet three";

    // This simulates what happens when from_markdown is called
    let result = from_markdown(markdown).unwrap();

    if let ContentBlock::BulletList { items } = result {
        // Should have 3 separate items
        assert_eq!(items.len(), 3);
        assert_eq!(items[0].1.content, "bullet one");
        assert_eq!(items[1].1.content, "bullet two");
        assert_eq!(items[2].1.content, "bullet three");
    } else {
        panic!("Expected bullet list, got: {result:?}");
    }
}

#[test]
fn test_parse_simple_list() {
    let content = "- First item\n- Second item";
    let doc = parse_markdown(content, "test.md".to_string());

    assert_eq!(doc.content.len(), 1);
    if let ContentBlock::BulletList { items } = &doc.content[0] {
        assert_eq!(items.len(), 2);
        assert_eq!(items[0].1.content, "First item");
        assert_eq!(items[1].1.content, "Second item");
    } else {
        panic!("Expected BulletList block");
    }
}

#[test]
fn test_parse_nested_list() {
    let content = "- Parent\n  - Child";
    let doc = parse_markdown(content, "test.md".to_string());

    assert_eq!(doc.content.len(), 1);
    if let ContentBlock::BulletList { items } = &doc.content[0] {
        assert_eq!(items.len(), 1);
        assert_eq!(items[0].1.content, "Parent");
        assert_eq!(items[0].1.children.len(), 1);
        assert_eq!(items[0].1.children[0].1.content, "Child");
    } else {
        panic!("Expected BulletList block");
    }
}

#[test]
fn test_parse_mixed_content() {
    let content = "# Title\n\nSome text\n\n- List item\n\n```rust\ncode\n```";
    let doc = parse_markdown(content, "test.md".to_string());

    assert_eq!(doc.content.len(), 4);
    assert!(matches!(
        doc.content[0],
        ContentBlock::Heading { level: 1, .. }
    ));
    assert!(matches!(doc.content[1], ContentBlock::Paragraph { .. }));
    assert!(matches!(doc.content[2], ContentBlock::BulletList { .. }));
    assert!(matches!(doc.content[3], ContentBlock::CodeBlock { .. }));
}

#[test]
fn test_parse_inline_code_in_list() {
    let content = "- This is a bullet point with inline code: `let x = 5;`";
    let doc = parse_markdown(content, "test.md".to_string());

    assert_eq!(doc.content.len(), 1);
    if let ContentBlock::BulletList { items } = &doc.content[0] {
        assert_eq!(items.len(), 1);
        assert_eq!(
            items[0].1.content,
            "This is a bullet point with inline code: `let x = 5;`"
        );
        assert!(
            items[0].1.nested_content.is_empty(),
            "Inline code should not create nested content"
        );
    } else {
        panic!("Expected BulletList block");
    }
}

#[test]
fn test_parse_fenced_code_block_in_list() {
    let content = r#"- This bullet has a fenced code block:
  ```rust
  fn example() {
      println!("Hello");
  }
  ```"#;
    let doc = parse_markdown(content, "test.md".to_string());

    assert_eq!(doc.content.len(), 1);
    if let ContentBlock::BulletList { items } = &doc.content[0] {
        assert_eq!(items.len(), 1);
        assert_eq!(items[0].1.content, "This bullet has a fenced code block:");
        assert_eq!(items[0].1.nested_content.len(), 1);

        if let ContentBlock::CodeBlock { language, code } = &items[0].1.nested_content[0] {
            assert_eq!(language.as_ref().unwrap(), "rust");
            assert!(code.contains("fn example()"));
            assert!(code.contains("println!"));
        } else {
            panic!("Expected CodeBlock in nested_content");
        }
    } else {
        panic!("Expected BulletList block");
    }
}

#[test]
fn test_parse_multiple_code_blocks_in_list() {
    let content = r#"- First item with code:
  ```rust
  fn first() { }
  ```
- Second item with inline: `x = 1`
- Third item with multiple blocks:
  ```python
  def hello():
      pass
  ```
  ```javascript
  console.log("test");
  ```"#;
    let doc = parse_markdown(content, "test.md".to_string());

    assert_eq!(doc.content.len(), 1);
    if let ContentBlock::BulletList { items } = &doc.content[0] {
        assert_eq!(items.len(), 3);

        // First item - one code block
        assert_eq!(items[0].1.content, "First item with code:");
        assert_eq!(items[0].1.nested_content.len(), 1);

        // Second item - inline code only
        assert_eq!(items[1].1.content, "Second item with inline: `x = 1`");
        assert_eq!(items[1].1.nested_content.len(), 0);

        // Third item - two code blocks
        assert_eq!(items[2].1.content, "Third item with multiple blocks:");
        assert_eq!(items[2].1.nested_content.len(), 2);

        if let ContentBlock::CodeBlock { language, .. } = &items[2].1.nested_content[0] {
            assert_eq!(language.as_ref().unwrap(), "python");
        } else {
            panic!("Expected first CodeBlock to be Python");
        }

        if let ContentBlock::CodeBlock { language, .. } = &items[2].1.nested_content[1] {
            assert_eq!(language.as_ref().unwrap(), "javascript");
        } else {
            panic!("Expected second CodeBlock to be JavaScript");
        }
    } else {
        panic!("Expected BulletList block");
    }
}

#[test]
fn test_parse_nested_lists_with_code_blocks() {
    let content = r#"- Parent item
  - Nested item with code:
    ```rust
    fn nested() { }
    ```
  - Another nested item"#;
    let doc = parse_markdown(content, "test.md".to_string());

    assert_eq!(doc.content.len(), 1);
    if let ContentBlock::BulletList { items } = &doc.content[0] {
        assert_eq!(items.len(), 1);
        assert_eq!(items[0].1.content, "Parent item");
        assert_eq!(items[0].1.children.len(), 2);

        // First nested item should have code block
        assert_eq!(items[0].1.children[0].1.content, "Nested item with code:");
        assert_eq!(items[0].1.children[0].1.nested_content.len(), 1);

        // Second nested item should not have code block
        assert_eq!(items[0].1.children[1].1.content, "Another nested item");
        assert_eq!(items[0].1.children[1].1.nested_content.len(), 0);
    } else {
        panic!("Expected BulletList block");
    }
}

#[test]
fn test_parse_wiki_links() {
    let content = "This is a paragraph with [[Simple-Link]] and [[Complex-Link]].";
    let doc = parse_markdown(content, "test.md".to_string());

    assert_eq!(doc.content.len(), 1);
    if let ContentBlock::Paragraph { segments } = &doc.content[0] {
        assert_eq!(segments.len(), 5);

        // Check the segments
        assert_eq!(
            segments[0],
            TextSegment::Text("This is a paragraph with ".to_string())
        );
        assert_eq!(
            segments[1],
            TextSegment::WikiLink {
                target: "Simple-Link".to_string(),
            }
        );
        assert_eq!(segments[2], TextSegment::Text(" and ".to_string()));
        assert_eq!(
            segments[3],
            TextSegment::WikiLink {
                target: "Complex-Link".to_string(),
            }
        );
        assert_eq!(segments[4], TextSegment::Text(".".to_string()));
    } else {
        panic!("Expected Paragraph block");
    }
}

#[test]
fn test_parse_wiki_links_in_list() {
    let content = "- List item with [[Page-Link]] reference";
    let doc = parse_markdown(content, "test.md".to_string());

    assert_eq!(doc.content.len(), 1);
    if let ContentBlock::BulletList { items } = &doc.content[0] {
        assert_eq!(items.len(), 1);

        // Check that the item has segments
        if let Some(ref segments) = items[0].1.segments {
            assert_eq!(segments.len(), 3);
            assert_eq!(
                segments[0],
                TextSegment::Text("List item with ".to_string())
            );
            assert_eq!(
                segments[1],
                TextSegment::WikiLink {
                    target: "Page-Link".to_string(),
                }
            );
            assert_eq!(segments[2], TextSegment::Text(" reference".to_string()));
        } else {
            panic!("Expected list item to have segments");
        }
    } else {
        panic!("Expected BulletList block");
    }
}

#[test]
fn test_soft_breaks_vs_hard_breaks() {
    // Test soft break (regular newline without trailing spaces)
    let soft_break_content = "First line\nSecond line in same paragraph";
    let soft_doc = parse_markdown(soft_break_content, "test.md".to_string());

    // Test hard break (trailing spaces + newline)
    let hard_break_content = "First line  \nSecond line in same paragraph";
    let hard_doc = parse_markdown(hard_break_content, "test.md".to_string());

    // Both should produce 1 paragraph
    assert_eq!(soft_doc.content.len(), 1);
    assert_eq!(hard_doc.content.len(), 1);

    // Check soft break behavior - should have space instead of newline
    if let ContentBlock::Paragraph {
        segments: soft_segments,
    } = &soft_doc.content[0]
    {
        if let TextSegment::Text(soft_text) = &soft_segments[0] {
            assert_eq!(soft_text, "First line Second line in same paragraph");
            assert!(!soft_text.contains("  \n"));
        } else {
            panic!("Expected text segment for soft break");
        }
    } else {
        panic!("Expected paragraph for soft break");
    }

    // Check hard break behavior - should have original pattern preserved
    if let ContentBlock::Paragraph {
        segments: hard_segments,
    } = &hard_doc.content[0]
    {
        if let TextSegment::Text(hard_text) = &hard_segments[0] {
            assert!(hard_text.contains("  \n"));
            assert_eq!(hard_text, "First line  \nSecond line in same paragraph");
        } else {
            panic!("Expected text segment for hard break");
        }
    } else {
        panic!("Expected paragraph for hard break");
    }
}

#[test]
fn test_bullet_list_with_soft_breaks() {
    // Test bullet list where items are separated by single newlines (soft breaks)
    let content = "- bullet one\n- bullet two\n- bullet three";
    let doc = parse_markdown(content, "test.md".to_string());

    // Should have 1 bullet list block
    assert_eq!(doc.content.len(), 1);

    if let ContentBlock::BulletList { items } = &doc.content[0] {
        // Should have 3 separate items, not combined
        assert_eq!(items.len(), 3);
        assert_eq!(items[0].1.content, "bullet one");
        assert_eq!(items[1].1.content, "bullet two");
        assert_eq!(items[2].1.content, "bullet three");
    } else {
        panic!("Expected bullet list block");
    }
}

#[test]
fn test_consecutive_paragraphs_are_separate_blocks() {
    let content = "First paragraph content here.\n\nSecond paragraph content here.\n\nThird paragraph content here.";
    let doc = parse_markdown(content, "test.md".to_string());

    // Should have 3 separate paragraph blocks
    assert_eq!(doc.content.len(), 3);

    // All should be paragraphs
    assert!(matches!(doc.content[0], ContentBlock::Paragraph { .. }));
    assert!(matches!(doc.content[1], ContentBlock::Paragraph { .. }));
    assert!(matches!(doc.content[2], ContentBlock::Paragraph { .. }));

    // Check content
    if let ContentBlock::Paragraph { segments } = &doc.content[0] {
        if let TextSegment::Text(text) = &segments[0] {
            assert_eq!(text, "First paragraph content here.");
        } else {
            panic!("Expected first segment to be text");
        }
    } else {
        panic!("Expected first block to be paragraph");
    }

    if let ContentBlock::Paragraph { segments } = &doc.content[1] {
        if let TextSegment::Text(text) = &segments[0] {
            assert_eq!(text, "Second paragraph content here.");
        } else {
            panic!("Expected first segment to be text");
        }
    } else {
        panic!("Expected second block to be paragraph");
    }

    if let ContentBlock::Paragraph { segments } = &doc.content[2] {
        if let TextSegment::Text(text) = &segments[0] {
            assert_eq!(text, "Third paragraph content here.");
        } else {
            panic!("Expected first segment to be text");
        }
    } else {
        panic!("Expected third block to be paragraph");
    }
}

#[test]
fn test_standalone_code_blocks_still_work() {
    let content = r#"# Title

Paragraph text.

```rust
fn standalone() {
    println!("This should not be in a list");
}
```

- List item after code block"#;
    let doc = parse_markdown(content, "test.md".to_string());

    assert_eq!(doc.content.len(), 4);
    assert!(matches!(doc.content[0], ContentBlock::Heading { .. }));
    assert!(matches!(doc.content[1], ContentBlock::Paragraph { .. }));
    assert!(matches!(doc.content[2], ContentBlock::CodeBlock { .. }));
    assert!(matches!(doc.content[3], ContentBlock::BulletList { .. }));

    // Verify the standalone code block
    if let ContentBlock::CodeBlock { language, code } = &doc.content[2] {
        assert_eq!(language.as_ref().unwrap(), "rust");
        assert!(code.contains("standalone"));
    } else {
        panic!("Expected standalone CodeBlock");
    }
}

#[test]
fn blocks_read_back_from_their_markdown() {
    let blocks = vec![
        ContentBlock::Heading { level: 3, text: "Title #1".to_string() },
        ContentBlock::Heading { level: 6, text: String::new() },
        ContentBlock::Quote("a quote".to_string()),
        ContentBlock::Quote(String::new()),
        ContentBlock::Rule,
        ContentBlock::CodeBlock { language: Some("rust".to_string()), code: "fn main() {}\n\nlet x = 1;".to_string() },
        ContentBlock::CodeBlock { language: None, code: String::new() },
    ];
    for b in blocks {
        let md = b.to_markdown();
        assert_eq!(from_markdown(&md), Ok(b));
    }
}

#[test]
fn wiki_links_write_back_to_the_text() {
    for text in ["plain", "a [[Link]] b", "[[x]][[y]]", "open [[ only", "[[a]] and [[", ""] {
        let segs = parse_wiki_links(text);
        let back: String = segments_to_markdown(&segs).into_iter().collect();
        assert_eq!(back, text);
        assert!(segs.iter().all(|s| !matches!(s, TextSegment::Text(t) if t.is_empty())));
    }
}
