use diskonaut::board::{Board, Rect, Tile};
use diskonaut::files::{File, FileMetadata, FileOrFolder, Folder};

fn bytes(s: &str) -> Vec<u8> {
    s.as_bytes().to_vec()
}

fn folder_of(children: Vec<FileOrFolder>) -> Folder {
    let size = children
        .iter()
        .map(|c| match c {
            FileOrFolder::File(f) => f.size,
            FileOrFolder::Folder(f) => f.size,
        })
        .sum();
    let count = children.len() as u64;
    Folder { name: bytes(""), size, descendant_count: count, children }
}

fn file(name: &str, size: u64) -> FileOrFolder {
    FileOrFolder::File(File { name: bytes(name), size })
}

fn area_of(t: &Tile) -> u64 {
    t.rect.width as u64 * t.rect.height as u64
}

fn overlap(a: &Rect, b: &Rect) -> bool {
    (a.x as u32) < b.x as u32 + b.width as u32
        && (b.x as u32) < a.x as u32 + a.width as u32
        && (a.y as u32) < b.y as u32 + b.height as u32
        && (b.y as u32) < a.y as u32 + a.height as u32
}

#[test]
fn layout_areas_are_proportional_within_rounding() {
    let mut board = Board::new(80, 24);
    board.change_files(&folder_of(vec![file("a.txt", 100), file("b.txt", 300)]));
    assert_eq!(board.tiles.len(), 2);
    let total: u64 = board.tiles.iter().map(area_of).sum();
    assert_eq!(total, 80 * 24);
    let a = board
        .tiles
        .iter()
        .find(|t| t.file_metadata.name == bytes("a.txt"))
        .unwrap();
    let b = board
        .tiles
        .iter()
        .find(|t| t.file_metadata.name == bytes("b.txt"))
        .unwrap();
    assert_eq!(area_of(b), 3 * area_of(a));
}

#[test]
fn layout_tiles_the_rectangle_without_overlap() {
    let mut board = Board::new(80, 24);
    board.change_files(&folder_of(vec![
        file("a", 5),
        file("b", 17),
        file("c", 1),
        file("d", 0),
        file("e", 120),
        file("f", 120),
    ]));
    assert_eq!(board.tiles.len(), 6);
    let total: u64 = board.tiles.iter().map(area_of).sum();
    assert_eq!(total, 80 * 24);
    for i in 0..board.tiles.len() {
        for j in 0..board.tiles.len() {
            if i != j {
                assert!(!overlap(&board.tiles[i].rect, &board.tiles[j].rect));
            }
        }
    }
}

#[test]
fn layout_is_deterministic_over_input_order() {
    let mut one = Board::new(80, 24);
    one.change_files(&folder_of(vec![
        file("a", 100),
        file("b", 300),
        file("c", 100),
    ]));
    let mut two = Board::new(80, 24);
    two.change_files(&folder_of(vec![
        file("c", 100),
        file("a", 100),
        file("b", 300),
    ]));
    assert_eq!(one.tiles.len(), two.tiles.len());
    for (x, y) in one.tiles.iter().zip(two.tiles.iter()) {
        assert_eq!(x.rect, y.rect);
        assert_eq!(x.file_metadata.name, y.file_metadata.name);
        assert_eq!(x.file_metadata.size, y.file_metadata.size);
    }
}

#[test]
fn empty_folder_lays_out_no_tiles_and_selection_is_safe() {
    let mut board = Board::new(80, 24);
    board.change_files(&folder_of(vec![]));
    assert_eq!(board.tiles.len(), 0);
    assert!(board.currently_selected().is_none());
    board.move_selected_right();
    assert!(board.currently_selected().is_none());
}

#[test]
fn moving_right_past_the_rightmost_tile_keeps_the_selection() {
    let mut board = Board::new(80, 24);
    board.change_files(&folder_of(vec![file("big", 300), file("small", 100)]));
    // Largest first: index 0 is the leftmost, largest tile.
    board.reset_selected_index();
    board.move_selected_right();
    let after_first = board.selected_index;
    assert_ne!(after_first, 0);
    board.move_selected_right();
    assert_eq!(board.selected_index, after_first);
}

#[test]
fn moving_back_left_returns_to_the_first_tile() {
    let mut board = Board::new(80, 24);
    board.change_files(&folder_of(vec![file("big", 300), file("small", 100)]));
    board.reset_selected_index();
    board.move_selected_right();
    board.move_selected_left();
    assert_eq!(board.selected_index, 0);
}

#[test]
fn change_files_clamps_the_selection() {
    let mut board = Board::new(80, 24);
    board.change_files(&folder_of(vec![
        file("a", 1),
        file("b", 1),
        file("c", 1),
    ]));
    board.selected_index = 2;
    board.change_files(&folder_of(vec![file("a", 1)]));
    assert_eq!(board.selected_index, 0);
    assert_eq!(board.tiles.len(), 1);
}

#[test]
fn zero_sized_entries_still_get_a_tile() {
    let mut board = Board::new(80, 24);
    board.change_files(&folder_of(vec![file("empty", 0), file("full", 10)]));
    assert_eq!(board.tiles.len(), 2);
    let total: u64 = board.tiles.iter().map(area_of).sum();
    assert_eq!(total, 80 * 24);
}
