use diskonaut::app::{App, Event, Instruction, UiMode};
use diskonaut::files::FileOrFolder;

fn bytes(s: &str) -> Vec<u8> {
    s.as_bytes().to_vec()
}

fn discovered(size: u64, is_dir: bool, components: &[&str]) -> Instruction {
    Instruction::EntryDiscovered {
        size,
        is_dir,
        path: components.iter().map(|c| bytes(c)).collect(),
        path_length: 0,
    }
}

fn scanned_app() -> App {
    let mut app = App::new(vec![bytes("root")], 80, 24);
    for instruction in [
        discovered(100, false, &["a.txt"]),
        discovered(0, true, &["b"]),
        discovered(300, false, &["b", "c.txt"]),
        Instruction::ProgressTick,
        Instruction::ScanComplete,
    ] {
        if let Instruction::EntryDiscovered { size, is_dir, path, path_length } = &instruction {
            assert!(app.can_add_entry_to_base_folder(*size, *is_dir, path, *path_length));
        }
        app.handle_instruction(instruction);
    }
    app
}

#[test]
fn scan_builds_the_tree_and_leaves_loading_mode() {
    let app = scanned_app();
    assert!(matches!(app.ui_mode, UiMode::Normal));
    assert_eq!(app.file_tree.root.size, 400);
    assert_eq!(app.ui_effects.loading_progress_indicator, 1);
    assert_eq!(app.board.tiles.len(), 2);
}

#[test]
fn scenario_layout_ratio_then_delete_then_leave() {
    let mut app = scanned_app();
    // Two tiles over root's children with a 1:3 area ratio.
    let area = |name: &str| {
        let t = app
            .board
            .tiles
            .iter()
            .find(|t| t.file_metadata.name == bytes(name))
            .unwrap();
        t.rect.width as u64 * t.rect.height as u64
    };
    assert_eq!(area("b"), 3 * area("a.txt"));
    // Enter "b" and delete "c.txt".
    app.file_tree.enter_folder(&bytes("b"));
    app.render_and_update_board();
    assert_eq!(app.board.tiles.len(), 1);
    let ftd = app.get_file_to_delete().unwrap();
    assert_eq!(ftd.file_metadata.name, bytes("c.txt"));
    assert_eq!(ftd.file_metadata.size, 300);
    assert!(app.can_delete_file(&ftd));
    let event = app.delete_file(&ftd, Ok(()));
    assert_eq!(event, Some(Event::FileDeleted));
    assert_eq!(app.file_tree.root.size, 100);
    assert_eq!(app.file_tree.space_freed, 300);
    // Leaving "b" succeeds and the cursor is empty again.
    assert!(app.file_tree.leave_folder());
    assert_eq!(app.file_tree.current_folder_names.len(), 0);
}

#[test]
fn discoveries_outside_the_displayed_directory_do_not_repaint() {
    let mut app = scanned_app();
    app.file_tree.enter_folder(&bytes("b"));
    app.render_and_update_board();
    assert_eq!(app.board.tiles.len(), 1);
    // A new entry at the root is inserted silently...
    let silent = app.handle_instruction(discovered(50, false, &["d.txt"]));
    assert!(!silent);
    assert_eq!(app.board.tiles.len(), 1);
    assert_eq!(app.file_tree.root.size, 450);
    // ...while one inside "b" rebuilds the board.
    let shown = app.handle_instruction(discovered(25, false, &["b", "e.txt"]));
    assert!(shown);
    assert_eq!(app.board.tiles.len(), 2);
}

#[test]
fn failed_reads_are_counted_not_fatal() {
    let mut app = App::new(vec![bytes("root")], 80, 24);
    assert!(!app.handle_instruction(Instruction::ReadFailed));
    assert!(!app.handle_instruction(Instruction::ReadFailed));
    assert_eq!(app.file_tree.failed_to_read, 2);
    assert!(app.is_running);
}

#[test]
fn deletion_failure_surfaces_as_an_error_message() {
    let mut app = scanned_app();
    app.file_tree.enter_folder(&bytes("b"));
    app.render_and_update_board();
    let ftd = app.get_file_to_delete().unwrap();
    let event = app.delete_file(&ftd, Err(String::from("permission denied")));
    assert_eq!(event, None);
    match &app.ui_mode {
        UiMode::ErrorMessage(msg) => assert_eq!(msg, "permission denied"),
        _ => panic!("expected an error message mode"),
    }
    // The tree is untouched.
    assert_eq!(app.file_tree.root.size, 400);
    assert_eq!(app.file_tree.space_freed, 0);
}

#[test]
fn entering_the_selected_folder_changes_the_path() {
    let mut app = scanned_app();
    // The largest tile (the folder "b") is laid out first.
    app.board.reset_selected_index();
    let selected_is_b = app.board.tiles[app.board.selected_index]
        .file_metadata
        .name
        == bytes("b");
    let event = app.enter_selected();
    if selected_is_b {
        assert_eq!(event, Some(Event::PathChange));
        assert_eq!(app.file_tree.current_folder_names.len(), 1);
    } else {
        // A file was selected: nothing happens.
        assert_eq!(event, None);
        assert_eq!(app.file_tree.current_folder_names.len(), 0);
    }
}

#[test]
fn go_up_at_root_reports_a_path_error() {
    let mut app = scanned_app();
    assert_eq!(app.go_up(), Event::PathError);
    app.file_tree.enter_folder(&bytes("b"));
    assert_eq!(app.go_up(), Event::PathChange);
}

#[test]
fn too_small_screens_switch_the_mode() {
    let mut app = scanned_app();
    app.render(80, 24);
    assert!(matches!(app.ui_mode, UiMode::Normal));
    app.render(40, 24);
    assert!(matches!(app.ui_mode, UiMode::ScreenTooSmall));
    app.reset_ui_mode();
    assert!(matches!(app.ui_mode, UiMode::Normal));
}

#[test]
fn exit_stops_the_app_and_reports_it() {
    let mut app = scanned_app();
    let event = app.exit();
    assert_eq!(event, Event::AppExit);
    assert!(!app.is_running);
}

#[test]
fn prompting_deletion_snapshots_the_selection() {
    let mut app = scanned_app();
    app.prompt_file_deletion();
    match &app.ui_mode {
        UiMode::DeleteFile(ftd) => {
            assert_eq!(ftd.path_to_file.len(), 1);
            assert_eq!(ftd.path_in_filesystem, vec![bytes("root")]);
        }
        _ => panic!("expected delete confirmation mode"),
    }
}
