use diskonaut::files::{FileOrFolder, FileToDelete, FileTree};

fn bytes(s: &str) -> Vec<u8> {
    s.as_bytes().to_vec()
}

fn tree_with_entries() -> FileTree {
    let mut tree = FileTree::new(vec![bytes("root")]);
    let a = vec![bytes("a.txt")];
    assert!(tree.can_add_entry(100, false, &a, 0));
    tree.add_entry(100, false, &a, 0);
    let b = vec![bytes("b")];
    assert!(tree.can_add_entry(0, true, &b, 0));
    tree.add_entry(0, true, &b, 0);
    let c = vec![bytes("b"), bytes("c.txt")];
    assert!(tree.can_add_entry(300, false, &c, 0));
    tree.add_entry(300, false, &c, 0);
    tree
}

#[test]
fn aggregate_sizes_after_insertions() {
    let tree = tree_with_entries();
    assert_eq!(tree.root.size, 400);
    assert_eq!(tree.root.descendant_count, 3);
    match tree.item_in_current_folder(&bytes("b")) {
        Some(FileOrFolder::Folder(folder)) => {
            assert_eq!(folder.size, 300);
            assert_eq!(folder.descendant_count, 1);
        }
        _ => panic!("b should be a folder"),
    }
}

#[test]
fn intermediate_folders_created_defensively() {
    let mut tree = FileTree::new(vec![bytes("root")]);
    let deep = vec![bytes("x"), bytes("y"), bytes("z.bin")];
    assert!(tree.can_add_entry(7, false, &deep, 0));
    tree.add_entry(7, false, &deep, 0);
    assert_eq!(tree.root.size, 7);
    assert_eq!(tree.root.descendant_count, 3);
    match tree.item_in_current_folder(&bytes("x")) {
        Some(FileOrFolder::Folder(folder)) => assert_eq!(folder.size, 7),
        _ => panic!("x should be a folder"),
    }
}

#[test]
fn duplicate_insertion_is_rejected() {
    let mut tree = FileTree::new(vec![bytes("root")]);
    let a = vec![bytes("a.txt")];
    tree.add_entry(100, false, &a, 0);
    assert!(!tree.can_add_entry(100, false, &a, 0));
    let through_file = vec![bytes("a.txt"), bytes("nested")];
    assert!(!tree.can_add_entry(5, false, &through_file, 0));
}

#[test]
fn path_length_skips_leading_components() {
    let mut tree = FileTree::new(vec![bytes("root")]);
    let absolute = vec![bytes("home"), bytes("user"), bytes("f.txt")];
    assert!(tree.can_add_entry(42, false, &absolute, 2));
    tree.add_entry(42, false, &absolute, 2);
    assert!(tree.item_in_current_folder(&bytes("f.txt")).is_some());
    assert!(tree.item_in_current_folder(&bytes("home")).is_none());
}

#[test]
fn round_trip_navigation_restores_cursor() {
    let mut tree = tree_with_entries();
    assert_eq!(tree.current_folder_names.len(), 0);
    tree.enter_folder(&bytes("b"));
    assert_eq!(tree.current_folder_names.len(), 1);
    assert_eq!(tree.current_folder_names[0], bytes("b"));
    assert!(tree.leave_folder());
    assert_eq!(tree.current_folder_names.len(), 0);
}

#[test]
fn entering_a_file_or_missing_name_is_ignored() {
    let mut tree = tree_with_entries();
    tree.enter_folder(&bytes("a.txt"));
    assert_eq!(tree.current_folder_names.len(), 0);
    tree.enter_folder(&bytes("nope"));
    assert_eq!(tree.current_folder_names.len(), 0);
}

#[test]
fn leave_folder_at_root_reports_failure() {
    let mut tree = tree_with_entries();
    assert!(!tree.leave_folder());
    assert_eq!(tree.current_folder_names.len(), 0);
}

#[test]
fn deletion_reduces_every_ancestor_by_the_file_size() {
    let mut tree = tree_with_entries();
    tree.enter_folder(&bytes("b"));
    let ftd = FileToDelete {
        path_in_filesystem: vec![bytes("root")],
        path_to_file: vec![bytes("b"), bytes("c.txt")],
        file_metadata: diskonaut::files::FileMetadata { name: bytes("c.txt"), size: 300 },
    };
    assert!(tree.can_delete_file(&ftd));
    tree.delete_file(&ftd);
    assert!(tree.item_in_current_folder(&bytes("c.txt")).is_none());
    assert_eq!(tree.root.size, 100);
    match tree.root.children.iter().find(|c| match c {
        FileOrFolder::Folder(f) => f.name == bytes("b"),
        _ => false,
    }) {
        Some(FileOrFolder::Folder(f)) => assert_eq!(f.size, 0),
        _ => panic!("b should still exist"),
    }
}

#[test]
fn full_path_prepends_the_filesystem_root() {
    let ftd = FileToDelete {
        path_in_filesystem: vec![bytes("home"), bytes("user")],
        path_to_file: vec![bytes("b"), bytes("c.txt")],
        file_metadata: diskonaut::files::FileMetadata { name: bytes("c.txt"), size: 300 },
    };
    let full = ftd.full_path();
    assert_eq!(
        full,
        vec![bytes("home"), bytes("user"), bytes("b"), bytes("c.txt")]
    );
}
