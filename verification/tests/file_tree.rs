use markdown_neuraxis::io::{markdown_only, sort_paths};
use markdown_neuraxis::models::file_tree::FileTree;
use markdown_neuraxis::paths::{components, extension, file_name, path_join, same_path};

#[test]
fn test_file_tree_structure() {
    let root_path = "/test/pages".to_string();
    let files = vec![
        "/test/pages/inbox.md".to_string(),
        "/test/pages/1_Projects/project1.md".to_string(),
        "/test/pages/1_Projects/project2.md".to_string(),
        "/test/pages/2_Areas/area1.md".to_string(),
    ];

    let tree = FileTree::build_from_files(root_path, &files);
    let items = tree.get_items();

    assert_eq!(tree.root.children.len(), 3);
    assert!(tree.root.child("inbox.md").is_some());
    assert!(tree.root.child("1_Projects").is_some());
    assert!(tree.root.child("2_Areas").is_some());

    assert!(!items.is_empty());

    assert_eq!(items[0].node.name, "pages");
    assert!(items[0].node.is_folder);
    assert!(items[0].node.is_expanded);
    assert_eq!(items[0].depth, 0);

    let folder_items: Vec<_> = items
        .iter()
        .filter(|item| item.node.is_folder && item.depth == 1)
        .collect();
    let file_items: Vec<_> = items
        .iter()
        .filter(|item| !item.node.is_folder && item.depth == 1)
        .collect();

    assert_eq!(folder_items.len(), 2);
    assert_eq!(file_items.len(), 1);
}

#[test]
fn test_folder_toggle() {
    let root_path = "/test/pages".to_string();
    let files = vec!["/test/pages/1_Projects/project1.md".to_string()];

    let mut tree = FileTree::build_from_files(root_path, &files);
    let projects_path = "/test/pages/1_Projects";

    assert!(tree.root.is_expanded);

    tree.toggle_folder(projects_path);
    let projects_node = tree.root.child("1_Projects").unwrap();
    assert!(projects_node.is_expanded);

    tree.toggle_folder(projects_path);
    let projects_node = tree.root.child("1_Projects").unwrap();
    assert!(!projects_node.is_expanded);
}

#[test]
fn test_sorting_folders_before_files() {
    let pages_dir = "/tmp/notes/pages".to_string();
    let files = vec![
        "/tmp/notes/pages/a_folder/file_in_a.md".to_string(),
        "/tmp/notes/pages/z_folder/file_in_z.md".to_string(),
        "/tmp/notes/pages/apple.md".to_string(),
        "/tmp/notes/pages/zebra.md".to_string(),
    ];
    let tree = FileTree::build_from_files(pages_dir, &files);
    let items = tree.get_items();

    assert_eq!(items.len(), 5);
    assert_eq!(items[0].node.name, "pages");
    assert!(items[0].node.is_folder);
    assert_eq!(items[1].node.name, "a_folder");
    assert!(items[1].node.is_folder);
    assert_eq!(items[2].node.name, "z_folder");
    assert!(items[2].node.is_folder);
    assert_eq!(items[3].node.name, "apple.md");
    assert!(!items[3].node.is_folder);
    assert_eq!(items[4].node.name, "zebra.md");
    assert!(!items[4].node.is_folder);
}

#[test]
fn test_case_insensitive_alphabetical_sorting() {
    let pages_dir = "/tmp/notes/pages".to_string();
    let mut file_paths = Vec::new();
    for folder in ["Apple_folder", "banana_folder", "Cherry_folder"] {
        file_paths.push(format!("/tmp/notes/pages/{folder}/content.md"));
    }
    for file in ["Delta.md", "echo.md", "Foxtrot.md"] {
        file_paths.push(format!("/tmp/notes/pages/{file}"));
    }

    let tree = FileTree::build_from_files(pages_dir, &file_paths);
    let items = tree.get_items();

    assert_eq!(items.len(), 7);
    assert_eq!(items[0].node.name, "pages");
    assert_eq!(items[1].node.name, "Apple_folder");
    assert!(items[1].node.is_folder);
    assert_eq!(items[2].node.name, "banana_folder");
    assert!(items[2].node.is_folder);
    assert_eq!(items[3].node.name, "Cherry_folder");
    assert!(items[3].node.is_folder);
    assert_eq!(items[4].node.name, "Delta.md");
    assert!(!items[4].node.is_folder);
    assert_eq!(items[5].node.name, "echo.md");
    assert!(!items[5].node.is_folder);
    assert_eq!(items[6].node.name, "Foxtrot.md");
    assert!(!items[6].node.is_folder);
}

#[test]
fn test_empty_directory_sorting() {
    let pages_dir = "/tmp/notes/pages".to_string();
    let empty_files: Vec<String> = vec![];
    let tree = FileTree::build_from_files(pages_dir, &empty_files);
    let items = tree.get_items();

    assert_eq!(items.len(), 1);
    assert_eq!(items[0].node.name, "pages");
    assert!(items[0].node.is_folder);
    assert!(items[0].node.children.is_empty());
}

#[test]
fn files_outside_the_root_are_left_out() {
    let files = vec!["/elsewhere/a.md".to_string(), "/root/b.md".to_string()];
    let tree = FileTree::build_from_files("/root".to_string(), &files);
    assert_eq!(tree.root.children.len(), 1);
    assert_eq!(tree.root.children[0].name, "b.md");
    assert_eq!(tree.root.children[0].path, "/root/b.md");
}

#[test]
fn closed_folders_hide_their_files() {
    let files = vec!["/r/f/a.md".to_string()];
    let mut tree = FileTree::build_from_files("/r".to_string(), &files);
    assert_eq!(tree.get_items().len(), 2);
    tree.toggle_folder("/r/f");
    assert_eq!(tree.get_items().len(), 3);
    assert_eq!(tree.get_items()[2].depth, 2);
    tree.toggle_folder("/r");
    assert_eq!(tree.get_items().len(), 1);
}

#[test]
fn paths_split_join_and_name() {
    assert_eq!(components("/a//b/./c/"), vec!["/", "a", "b", "c"]);
    assert_eq!(components("x/../y"), vec!["x", "..", "y"]);
    assert_eq!(path_join("/a", "b"), "/a/b");
    assert_eq!(path_join("/a/", "b"), "/a/b");
    assert_eq!(path_join("", "b"), "b");
    assert_eq!(path_join("/a", "/b"), "/b");
    assert_eq!(file_name("/a/b.md"), Some("b.md".to_string()));
    assert_eq!(file_name("/"), None);
    assert_eq!(file_name("a/.."), None);
    assert_eq!(extension("/a/b.tar.gz"), Some("gz".to_string()));
    assert_eq!(extension("/a/.hidden"), None);
    assert_eq!(extension("/a/noext"), None);
    assert_eq!(extension("/a/dot."), Some("".to_string()));
    assert!(same_path("/a/b", "/a//b/"));
    assert!(!same_path("/a/b", "a/b"));
}

#[test]
fn markdown_files_are_kept_and_sorted_by_component() {
    let found = vec![
        "/n/pages/b.md".to_string(),
        "/n/pages/a-c.md".to_string(),
        "/n/pages/a/z.md".to_string(),
        "/n/pages/notes.txt".to_string(),
    ];
    let md = markdown_only(&found);
    assert_eq!(md.len(), 3);
    let sorted = sort_paths(md);
    assert_eq!(sorted, vec!["/n/pages/a/z.md", "/n/pages/a-c.md", "/n/pages/b.md"]);
}

#[test]
fn toggling_a_folder_twice_gives_back_the_rows() {
    let files = vec![
        "/notes/pages/a/one.md".to_string(),
        "/notes/pages/a/b/two.md".to_string(),
        "/notes/pages/three.md".to_string(),
    ];
    let mut tree = FileTree::build_from_files("/notes/pages".to_string(), &files);
    let rows = |t: &FileTree| -> Vec<(String, usize, bool)> {
        t.get_items().into_iter().map(|i| (i.node.name.clone(), i.depth, i.node.is_expanded)).collect()
    };
    let before = rows(&tree);
    tree.toggle_folder("/notes/pages/a");
    assert_ne!(rows(&tree), before);
    tree.toggle_folder("/notes/pages/a");
    assert_eq!(rows(&tree), before);
}

#[test]
fn building_a_tree_is_inserting_each_file_below_the_root() {
    let root = "/notes/pages".to_string();
    let files = vec![
        "/notes/pages/b.md".to_string(),
        "/elsewhere/x.md".to_string(),
        "/notes/pages/dir/a.md".to_string(),
    ];
    let built = FileTree::build_from_files(root.clone(), &files);
    let mut step = FileTree::new(root.clone());
    step.root.is_expanded = true;
    step.root.insert_file("b.md", files[0].clone());
    step.root.insert_file("dir/a.md", files[2].clone());
    let a: Vec<(String, String, bool, usize)> =
        built.get_items().iter().map(|i| (i.node.name.clone(), i.node.path.clone(), i.node.is_folder, i.depth)).collect();
    let b: Vec<(String, String, bool, usize)> =
        step.get_items().iter().map(|i| (i.node.name.clone(), i.node.path.clone(), i.node.is_folder, i.depth)).collect();
    assert_eq!(a, b);
    let empty = FileTree::build_from_files(root.clone(), &[]);
    assert!(empty.root.is_expanded && empty.root.children.is_empty());
}
