use vstd::prelude::*;
use crate::board::{
    board_tiles_spec, folder_items, item_leq, lemma_item_total_ordering, lemma_layout_partition,
    moved, sum_areas, tile_in, tiles_disjoint, tiles_view, Board, Direction, Rect,
    MAX_LAYOUT_ITEMS,
};
use crate::files::{
    after_add, after_delete, clone_bytes, clone_path, lookup, FileOrFolder, FileToDelete,
    FileTree,
};

verus! {

/// What the core reports outward for the rest of the program to act on.
#[derive(Clone, Copy, PartialEq, Eq, Structural, Debug)]
pub enum Event {
    PathChange,
    PathError,
    FileDeleted,
    AppExit,
}

/// One unit of scan progress, consumed exactly once, in order.
pub enum Instruction {
    EntryDiscovered { size: u64, is_dir: bool, path: Vec<Vec<u8>>, path_length: usize },
    ReadFailed,
    ProgressTick,
    ScanComplete,
}

/// The closed set of states the interface can be in.
pub enum UiMode {
    Loading,
    Normal,
    ScreenTooSmall,
    DeleteFile(FileToDelete),
    ErrorMessage(String),
}

/// Presentation toggles the renderer reads.
pub struct UiEffects {
    pub frame_around_current_path: bool,
    pub frame_around_space_freed: bool,
    pub current_path_is_red: bool,
    pub loading_progress_indicator: u64,
}

impl UiEffects {
    pub fn new() -> (r: Self)
        ensures
            !r.frame_around_current_path,
            !r.frame_around_space_freed,
            !r.current_path_is_red,
            r.loading_progress_indicator == 0,
    {
        UiEffects {
            frame_around_current_path: false,
            frame_around_space_freed: false,
            current_path_is_red: false,
            loading_progress_indicator: 0,
        }
    }
}

/// The board shows exactly the layout of `children` over `area` — except
/// for a directory too large to lay out, which shows as empty.
pub open spec fn board_shows(b: Board, children: Seq<FileOrFolder>, area: Rect) -> bool {
    &&& b.area == area
    &&& children.len() <= MAX_LAYOUT_ITEMS as int ==> tiles_view(b.tiles@) == board_tiles_spec(
        children,
        area,
    )
    &&& children.len() > MAX_LAYOUT_ITEMS as int ==> b.tiles@.len() == 0
}

/// What the board shows for a folder partitions its rectangle: one tile
/// per child, every tile inside the rectangle, tiles pairwise disjoint,
/// and their areas adding up to the whole, so the rectangle is tiled
/// exactly.
pub proof fn lemma_board_tiles_partition(children: Seq<FileOrFolder>, area: Rect)
    ensures
        ({
            let r = board_tiles_spec(children, area);
            &&& r.len() == children.len()
            &&& forall|i: int|
                0 <= i < r.len() ==> tile_in(
                    #[trigger] r[i],
                    area.x as int,
                    area.y as int,
                    area.width as int,
                    area.height as int,
                )
            &&& forall|i: int, j: int|
                0 <= i < j < r.len() ==> tiles_disjoint(#[trigger] r[i], #[trigger] r[j])
            &&& children.len() > 0 ==> sum_areas(r) == area.width * area.height
        }),
{
    broadcast use vstd::seq_lib::group_to_multiset_ensures;

    let items = folder_items(children);
    let sorted = items.sort_by(item_leq());
    lemma_item_total_ordering();
    items.lemma_sort_by_ensures(item_leq());
    assert(sorted.len() == items.len()) by {
        assert(items.to_multiset().len() == sorted.to_multiset().len());
    }
    lemma_layout_partition(sorted, area.x as int, area.y as int, area.width as int, area.height as int);
}

/// The interactive state: the tree being filled by the scan, the board laid
/// out over the displayed directory, and the interface mode.
pub struct App {
    pub is_running: bool,
    pub ui_mode: UiMode,
    pub board: Board,
    pub file_tree: FileTree,
    pub ui_effects: UiEffects,
}

impl App {
    pub open spec fn inv(&self) -> bool {
        &&& self.board.inv()
        &&& self.file_tree.inv()
    }

    pub fn new(path_in_filesystem: Vec<Vec<u8>>, screen_width: u16, screen_height: u16) -> (r:
        Self)
        ensures
            r.inv(),
            r.is_running,
            r.ui_mode is Loading,
            r.file_tree.path_in_filesystem == path_in_filesystem,
            r.file_tree.cursor().len() == 0,
            r.file_tree.root.children@.len() == 0,
            r.file_tree.root.size == 0,
            r.file_tree.failed_to_read == 0,
            r.file_tree.space_freed == 0,
            r.board.tiles@.len() == 0,
            r.board.area == (Rect { x: 0, y: 0, width: screen_width, height: screen_height }),
            !r.ui_effects.frame_around_current_path,
            !r.ui_effects.frame_around_space_freed,
            !r.ui_effects.current_path_is_red,
            r.ui_effects.loading_progress_indicator == 0,
    {
        App {
            is_running: true,
            ui_mode: UiMode::Loading,
            board: Board::new(screen_width, screen_height),
            file_tree: FileTree::new(path_in_filesystem),
            ui_effects: UiEffects::new(),
        }
    }

    /// Rebuild the board from the directory the cursor points at. The
    /// caller paints afterwards; this computes what it paints.
    pub fn render_and_update_board(&mut self)
        requires
            old(self).inv(),
        ensures
            final(self).inv(),
            final(self).file_tree == old(self).file_tree,
            final(self).ui_mode == old(self).ui_mode,
            final(self).is_running == old(self).is_running,
            final(self).ui_effects == old(self).ui_effects,
            board_shows(
                final(self).board,
                old(self).file_tree.current_folder_spec().children@,
                old(self).board.area,
            ),
            final(self).board.selected_index == (if old(self).board.selected_index < final(self).board.tiles@.len() {
                old(self).board.selected_index as int
            } else if final(self).board.tiles@.len() > 0 {
                final(self).board.tiles@.len() - 1
            } else {
                0
            }),
    {
        let current_folder = self.file_tree.get_current_folder();
        self.board.change_files(current_folder);
    }

    pub fn increment_loading_progress_indicator(&mut self)
        ensures
            final(self).ui_effects.loading_progress_indicator == (if old(self).ui_effects.loading_progress_indicator < u64::MAX {
                old(self).ui_effects.loading_progress_indicator + 1
            } else {
                u64::MAX as int
            }),
            final(self).board == old(self).board,
            final(self).file_tree == old(self).file_tree,
            final(self).ui_mode == old(self).ui_mode,
            final(self).is_running == old(self).is_running,
            final(self).ui_effects.frame_around_current_path == old(self).ui_effects.frame_around_current_path,
            final(self).ui_effects.frame_around_space_freed == old(self).ui_effects.frame_around_space_freed,
            final(self).ui_effects.current_path_is_red == old(self).ui_effects.current_path_is_red,
    {
        if self.ui_effects.loading_progress_indicator < u64::MAX {
            self.ui_effects.loading_progress_indicator =
                self.ui_effects.loading_progress_indicator + 1;
        }
    }

    /// Note the screen dimensions ahead of painting: a terminal too small
    /// to draw in flips the interface into its dedicated mode.
    pub fn render(&mut self, screen_width: u16, screen_height: u16)
        ensures
            (screen_width < 50 || screen_height < 15) ==> final(self).ui_mode is ScreenTooSmall,
            !(screen_width < 50 || screen_height < 15) ==> final(self).ui_mode == old(self).ui_mode,
            final(self).board == old(self).board,
            final(self).file_tree == old(self).file_tree,
            final(self).is_running == old(self).is_running,
            final(self).ui_effects == old(self).ui_effects,
    {
        if screen_width < 50 || screen_height < 15 {
            self.ui_mode = UiMode::ScreenTooSmall;
        }
    }

    pub fn set_frame_around_current_path(&mut self)
        ensures
            *final(self) == (App { ui_effects: UiEffects { frame_around_current_path: true, ..old(self).ui_effects }, ..*old(self) }),
    {
        self.ui_effects.frame_around_current_path = true;
    }

    pub fn remove_frame_around_current_path(&mut self)
        ensures
            *final(self) == (App { ui_effects: UiEffects { frame_around_current_path: false, ..old(self).ui_effects }, ..*old(self) }),
    {
        self.ui_effects.frame_around_current_path = false;
    }

    pub fn set_frame_around_space_freed(&mut self)
        ensures
            *final(self) == (App { ui_effects: UiEffects { frame_around_space_freed: true, ..old(self).ui_effects }, ..*old(self) }),
    {
        self.ui_effects.frame_around_space_freed = true;
    }

    pub fn remove_frame_around_space_freed(&mut self)
        ensures
            *final(self) == (App { ui_effects: UiEffects { frame_around_space_freed: false, ..old(self).ui_effects }, ..*old(self) }),
    {
        self.ui_effects.frame_around_space_freed = false;
    }

    pub fn set_path_to_red(&mut self)
        ensures
            *final(self) == (App { ui_effects: UiEffects { current_path_is_red: true, ..old(self).ui_effects }, ..*old(self) }),
    {
        self.ui_effects.current_path_is_red = true;
    }

    pub fn reset_current_path_color(&mut self)
        ensures
            *final(self) == (App { ui_effects: UiEffects { current_path_is_red: false, ..old(self).ui_effects }, ..*old(self) }),
    {
        self.ui_effects.current_path_is_red = false;
    }

    /// The scan is done: leave loading mode, exactly once, and show the
    /// first full layout.
    pub fn start_ui(&mut self)
        requires
            old(self).inv(),
        ensures
            final(self).inv(),
            final(self).ui_mode is Normal,
            final(self).file_tree == old(self).file_tree,
            final(self).is_running == old(self).is_running,
            final(self).ui_effects == old(self).ui_effects,
            board_shows(
                final(self).board,
                old(self).file_tree.current_folder_spec().children@,
                old(self).board.area,
            ),
    {
        self.ui_mode = UiMode::Normal;
        self.render_and_update_board();
    }

    /// Whether the tree accepts this discovered entry as it stands.
    pub fn can_add_entry_to_base_folder(
        &self,
        size: u64,
        is_dir: bool,
        path: &Vec<Vec<u8>>,
        path_length: usize,
    ) -> (r: bool)
        ensures
            r == self.file_tree.add_entry_allowed(
                size,
                is_dir,
                path.deep_view(),
                path_length as int,
            ),
    {
        self.file_tree.can_add_entry(size, is_dir, path, path_length)
    }

    pub fn add_entry_to_base_folder(
        &mut self,
        size: u64,
        is_dir: bool,
        path: &Vec<Vec<u8>>,
        path_length: usize,
    )
        requires
            old(self).inv(),
            old(self).file_tree.add_entry_allowed(
                size,
                is_dir,
                path.deep_view(),
                path_length as int,
            ),
        ensures
            final(self).inv(),
            after_add(
                old(self).file_tree.root,
                final(self).file_tree.root,
                path.deep_view().skip(path_length as int),
                size,
                is_dir,
            ),
            final(self).file_tree.current_folder_names == old(self).file_tree.current_folder_names,
            final(self).file_tree.space_freed == old(self).file_tree.space_freed,
            final(self).file_tree.failed_to_read == old(self).file_tree.failed_to_read,
            final(self).board == old(self).board,
            final(self).ui_mode == old(self).ui_mode,
            final(self).is_running == old(self).is_running,
    {
        self.file_tree.add_entry(size, is_dir, path, path_length);
    }

    /// Any transient mode falls back to normal; loading stays loading.
    pub fn reset_ui_mode(&mut self)
        ensures
            final(self).ui_mode == (match old(self).ui_mode {
                UiMode::Loading => UiMode::Loading,
                _ => UiMode::Normal,
            }),
            final(self).board == old(self).board,
            final(self).file_tree == old(self).file_tree,
            final(self).is_running == old(self).is_running,
            final(self).ui_effects == old(self).ui_effects,
    {
        match self.ui_mode {
            UiMode::Loading => {},
            UiMode::Normal => {
                self.ui_mode = UiMode::Normal;
            },
            _ => {
                self.ui_mode = UiMode::Normal;
            },
        }
    }

    /// Stop running; the caller delivers the exit event.
    pub fn exit(&mut self) -> (e: Event)
        ensures
            !final(self).is_running,
            e == Event::AppExit,
            final(self).board == old(self).board,
            final(self).file_tree == old(self).file_tree,
            final(self).ui_mode == old(self).ui_mode,
            final(self).ui_effects == old(self).ui_effects,
    {
        self.is_running = false;
        Event::AppExit
    }

    pub fn move_selected_right(&mut self)
        requires
            old(self).inv(),
        ensures
            final(self).inv(),
            moved(old(self).board, final(self).board, Direction::Right),
            final(self).file_tree == old(self).file_tree,
            final(self).ui_mode == old(self).ui_mode,
            final(self).is_running == old(self).is_running,
            final(self).ui_effects == old(self).ui_effects,
    {
        self.board.move_selected_right();
    }

    pub fn move_selected_left(&mut self)
        requires
            old(self).inv(),
        ensures
            final(self).inv(),
            moved(old(self).board, final(self).board, Direction::Left),
            final(self).file_tree == old(self).file_tree,
            final(self).ui_mode == old(self).ui_mode,
            final(self).is_running == old(self).is_running,
            final(self).ui_effects == old(self).ui_effects,
    {
        self.board.move_selected_left();
    }

    pub fn move_selected_down(&mut self)
        requires
            old(self).inv(),
        ensures
            final(self).inv(),
            moved(old(self).board, final(self).board, Direction::Down),
            final(self).file_tree == old(self).file_tree,
            final(self).ui_mode == old(self).ui_mode,
            final(self).is_running == old(self).is_running,
            final(self).ui_effects == old(self).ui_effects,
    {
        self.board.move_selected_down();
    }

    pub fn move_selected_up(&mut self)
        requires
            old(self).inv(),
        ensures
            final(self).inv(),
            moved(old(self).board, final(self).board, Direction::Up),
            final(self).file_tree == old(self).file_tree,
            final(self).ui_mode == old(self).ui_mode,
            final(self).is_running == old(self).is_running,
            final(self).ui_effects == old(self).ui_effects,
    {
        self.board.move_selected_up();
    }

    /// Drill into the selected entry if it is a folder on display; files
    /// and empty boards leave everything as it is.
    pub fn enter_selected(&mut self) -> (e: Option<Event>)
        requires
            old(self).inv(),
        ensures
            final(self).inv(),
            final(self).is_running == old(self).is_running,
            final(self).ui_effects == old(self).ui_effects,
            final(self).file_tree.root == old(self).file_tree.root,
            final(self).file_tree.path_in_filesystem == old(self).file_tree.path_in_filesystem,
            final(self).file_tree.space_freed == old(self).file_tree.space_freed,
            final(self).file_tree.failed_to_read == old(self).file_tree.failed_to_read,
            old(self).board.tiles@.len() == 0 ==> *final(self) == *old(self) && e is None,
            old(self).board.tiles@.len() > 0 ==> {
                let nm = old(self).board.tiles@[old(self).board.selected_index as int].file_metadata.name@;
                match lookup(old(self).file_tree.current_folder_spec().children@, nm) {
                    Some(FileOrFolder::Folder(_)) => {
                        &&& e == Some(Event::PathChange)
                        &&& final(self).file_tree.cursor() == old(self).file_tree.cursor().push(nm)
                        &&& final(self).file_tree.root == old(self).file_tree.root
                        &&& board_shows(
                            final(self).board,
                            final(self).file_tree.current_folder_spec().children@,
                            old(self).board.area,
                        )
                        &&& final(self).board.selected_index == 0
                        &&& final(self).ui_mode == old(self).ui_mode
                    },
                    _ => *final(self) == *old(self) && e is None,
                }
            },
    {
        let name_opt: Option<Vec<u8>> = match self.board.currently_selected() {
            Some(t) => Some(clone_bytes(&t.file_metadata.name)),
            None => None,
        };
        match name_opt {
            Some(name) => {
                let is_folder = match self.file_tree.item_in_current_folder(&name) {
                    Some(FileOrFolder::Folder(_)) => true,
                    _ => false,
                };
                if is_folder {
                    self.file_tree.enter_folder(&name);
                    self.board.reset_selected_index();
                    self.render_and_update_board();
                    Some(Event::PathChange)
                } else {
                    None
                }
            },
            None => None,
        }
    }

    /// Step out of the displayed directory; at the root this is refused
    /// and reported as such.
    pub fn go_up(&mut self) -> (e: Event)
        requires
            old(self).inv(),
        ensures
            final(self).inv(),
            old(self).file_tree.cursor().len() > 0 ==> e == Event::PathChange && final(self).file_tree.cursor() == old(self).file_tree.cursor().drop_last(),
            old(self).file_tree.cursor().len() == 0 ==> e == Event::PathError && final(self).file_tree.cursor() == old(self).file_tree.cursor(),
            final(self).file_tree.root == old(self).file_tree.root,
            final(self).file_tree.path_in_filesystem == old(self).file_tree.path_in_filesystem,
            final(self).file_tree.space_freed == old(self).file_tree.space_freed,
            final(self).file_tree.failed_to_read == old(self).file_tree.failed_to_read,
            final(self).board.selected_index == 0,
            board_shows(
                final(self).board,
                final(self).file_tree.current_folder_spec().children@,
                old(self).board.area,
            ),
            final(self).ui_mode == old(self).ui_mode,
            final(self).is_running == old(self).is_running,
            final(self).ui_effects == old(self).ui_effects,
    {
        let succeeded = self.file_tree.leave_folder();
        self.board.reset_selected_index();
        self.render_and_update_board();
        if succeeded {
            Event::PathChange
        } else {
            Event::PathError
        }
    }

    /// Snapshot the selected entry for deletion: the scan root, the path
    /// from the tree root to the entry, and its metadata.
    pub fn get_file_to_delete(&self) -> (r: Option<FileToDelete>)
        requires
            self.inv(),
        ensures
            match r {
                Some(ftd) => {
                    &&& self.board.tiles@.len() > 0
                    &&& ftd.path_in_filesystem.deep_view() == self.path_in_filesystem_view()
                    &&& ftd.path_to_file.deep_view() == self.file_tree.cursor().push(
                        self.board.tiles@[self.board.selected_index as int].file_metadata.name@,
                    )
                    &&& ftd.file_metadata.name@ == self.board.tiles@[self.board.selected_index as int].file_metadata.name@
                    &&& ftd.file_metadata.size == self.board.tiles@[self.board.selected_index as int].file_metadata.size
                },
                None => self.board.tiles@.len() == 0,
            },
    {
        let meta = match self.board.currently_selected() {
            Some(t) => crate::board::Tile {
                rect: t.rect,
                file_metadata: crate::files::FileMetadata {
                    name: clone_bytes(&t.file_metadata.name),
                    size: t.file_metadata.size,
                },
            },
            None => {
                return None;
            },
        };
        let mut path_to_file = clone_path(&self.file_tree.current_folder_names);
        path_to_file.push(clone_bytes(&meta.file_metadata.name));
        proof {
            assert(path_to_file.deep_view() =~~= self.file_tree.cursor().push(
                self.board.tiles@[self.board.selected_index as int].file_metadata.name@,
            ));
        }
        Some(
            FileToDelete {
                path_in_filesystem: clone_path(&self.file_tree.path_in_filesystem),
                path_to_file,
                file_metadata: meta.file_metadata,
            },
        )
    }

    pub open spec fn path_in_filesystem_view(&self) -> Seq<Seq<u8>> {
        self.file_tree.path_in_filesystem.deep_view()
    }

    /// Ask the user to confirm deleting the selected entry.
    pub fn prompt_file_deletion(&mut self)
        requires
            old(self).inv(),
        ensures
            final(self).inv(),
            final(self).board == old(self).board,
            final(self).file_tree == old(self).file_tree,
            final(self).is_running == old(self).is_running,
            final(self).ui_effects == old(self).ui_effects,
            old(self).board.tiles@.len() == 0 ==> final(self).ui_mode == old(self).ui_mode,
            old(self).board.tiles@.len() > 0 ==> (final(self).ui_mode matches UiMode::DeleteFile(
                ftd,
            ) && {
                let selected = old(self).board.tiles@[old(
                    self,
                ).board.selected_index as int].file_metadata;
                &&& ftd.path_to_file.deep_view() == old(self).file_tree.cursor().push(
                    selected.name@,
                )
                &&& ftd.path_in_filesystem.deep_view() == old(self).path_in_filesystem_view()
                &&& ftd.file_metadata.name@ == selected.name@
                &&& ftd.file_metadata.size == selected.size
            }),
    {
        match self.get_file_to_delete() {
            Some(file_to_delete) => {
                self.ui_mode = UiMode::DeleteFile(file_to_delete);
            },
            None => {},
        }
    }

    /// Back to normal and repaint the current directory.
    pub fn normal_mode(&mut self)
        requires
            old(self).inv(),
        ensures
            final(self).inv(),
            final(self).ui_mode is Normal,
            final(self).file_tree == old(self).file_tree,
            final(self).is_running == old(self).is_running,
            final(self).ui_effects == old(self).ui_effects,
            board_shows(
                final(self).board,
                old(self).file_tree.current_folder_spec().children@,
                old(self).board.area,
            ),
    {
        self.ui_mode = UiMode::Normal;
        self.render_and_update_board();
    }

    /// Whether the pending deletion can be applied to the tree as it
    /// stands, with its bookkeeping in bounds.
    pub fn can_delete_file(&self, file_to_delete: &FileToDelete) -> (r: bool)
        requires
            self.inv(),
        ensures
            r == (self.file_tree.delete_allowed(file_to_delete.path_to_file.deep_view())
                && self.file_tree.space_freed + file_to_delete.file_metadata.size <= u64::MAX),
    {
        if self.file_tree.space_freed > u64::MAX - file_to_delete.file_metadata.size {
            return false;
        }
        self.file_tree.can_delete_file(file_to_delete)
    }

    /// Settle a confirmed deletion: the caller has already asked the
    /// filesystem to remove the entry and passes its verdict. Success takes
    /// the entry out of the tree, books the bytes as freed and reports the
    /// deletion; failure shows the message and leaves the tree untouched.
    pub fn delete_file(&mut self, file_to_delete: &FileToDelete, removal: Result<(), String>) -> (e:
        Option<Event>)
        requires
            old(self).inv(),
            removal is Ok ==> old(self).file_tree.delete_allowed(
                file_to_delete.path_to_file.deep_view(),
            ) && old(self).file_tree.space_freed + file_to_delete.file_metadata.size <= u64::MAX,
        ensures
            final(self).inv(),
            removal is Ok ==> {
                &&& after_delete(
                    old(self).file_tree.root,
                    final(self).file_tree.root,
                    file_to_delete.path_to_file.deep_view(),
                )
                &&& final(self).file_tree.space_freed == old(self).file_tree.space_freed
                    + file_to_delete.file_metadata.size
                &&& final(self).file_tree.cursor() == old(self).file_tree.cursor()
                &&& final(self).ui_mode is Normal
                &&& final(self).board.selected_index == 0
                &&& board_shows(
                    final(self).board,
                    final(self).file_tree.current_folder_spec().children@,
                    old(self).board.area,
                )
                &&& e == Some(Event::FileDeleted)
            },
            removal matches Err(msg) ==> {
                &&& final(self).ui_mode == UiMode::ErrorMessage(msg)
                &&& final(self).board == old(self).board
                &&& final(self).file_tree == old(self).file_tree
                &&& e is None
            },
            final(self).is_running == old(self).is_running,
            final(self).ui_effects == old(self).ui_effects,
            final(self).file_tree.current_folder_names == old(self).file_tree.current_folder_names,
            final(self).file_tree.path_in_filesystem == old(self).file_tree.path_in_filesystem,
            final(self).file_tree.failed_to_read == old(self).file_tree.failed_to_read,
    {
        match removal {
            Ok(()) => {
                self.remove_file_from_ui(file_to_delete);
                self.ui_mode = UiMode::Normal;
                self.render_and_update_board();
                Some(Event::FileDeleted)
            },
            Err(msg) => {
                self.ui_mode = UiMode::ErrorMessage(msg);
                None
            },
        }
    }

    pub fn increment_failed_to_read(&mut self)
        ensures
            final(self).file_tree.failed_to_read == (if old(self).file_tree.failed_to_read
                < u64::MAX {
                old(self).file_tree.failed_to_read + 1
            } else {
                u64::MAX as int
            }),
            final(self).file_tree.root == old(self).file_tree.root,
            final(self).file_tree.current_folder_names == old(self).file_tree.current_folder_names,
            final(self).file_tree.path_in_filesystem == old(self).file_tree.path_in_filesystem,
            final(self).file_tree.space_freed == old(self).file_tree.space_freed,
            final(self).board == old(self).board,
            final(self).ui_mode == old(self).ui_mode,
            final(self).is_running == old(self).is_running,
            final(self).ui_effects == old(self).ui_effects,
    {
        if self.file_tree.failed_to_read < u64::MAX {
            self.file_tree.failed_to_read = self.file_tree.failed_to_read + 1;
        }
    }

    /// The discovered entry's parent is the directory on display, so the
    /// board must be rebuilt for it.
    pub fn parent_is_displayed(&self, path: &Vec<Vec<u8>>, path_length: usize) -> (r: bool)
        requires
            path_length < path@.len(),
        ensures
            r == (path.deep_view().skip(path_length as int).drop_last()
                == self.file_tree.cursor()),
    {
        let ghost parent = path.deep_view().skip(path_length as int).drop_last();
        let plen = path.len();
        let rel_len = plen - path_length - 1;
        let cursor_len = self.file_tree.current_folder_names.len();
        if rel_len != cursor_len {
            proof {
                assert(parent.len() != self.file_tree.cursor().len());
            }
            return false;
        }
        let mut i: usize = 0;
        while i < rel_len
            invariant
                i <= rel_len,
                path_length < path@.len(),
                plen == path@.len(),
                rel_len == path@.len() - path_length - 1,
                rel_len == self.file_tree.current_folder_names@.len(),
                parent == path.deep_view().skip(path_length as int).drop_last(),
                forall|j: int| 0 <= j < i ==> parent[j] == self.file_tree.cursor()[j],
            decreases rel_len - i,
        {
            let same = crate::files::bytes_eq(
                &path[path_length + i],
                &self.file_tree.current_folder_names[i],
            );
            proof {
                assert(parent[i as int] =~= path@[path_length + i as int]@);
                assert(self.file_tree.cursor()[i as int]
                    =~= self.file_tree.current_folder_names@[i as int]@);
            }
            if !same {
                return false;
            }
            i += 1;
        }
        proof {
            assert(parent =~= self.file_tree.cursor());
        }
        true
    }

    /// Apply one unit of scan progress, as the consumer loop does for each
    /// message in order: a discovered entry goes into the tree (and the
    /// board is rebuilt only when the displayed directory changed), a read
    /// failure is counted, a progress tick animates the loading indicator,
    /// and completion flips the interface from loading to interactive. The
    /// result says whether the caller should repaint.
    pub fn handle_instruction(&mut self, instruction: Instruction) -> (needs_render: bool)
        requires
            old(self).inv(),
            instruction matches Instruction::EntryDiscovered { size, is_dir, path, path_length }
                ==> old(self).file_tree.add_entry_allowed(
                size,
                is_dir,
                path.deep_view(),
                path_length as int,
            ),
        ensures
            final(self).inv(),
            instruction matches Instruction::EntryDiscovered { size, is_dir, path, path_length }
                ==> {
                &&& after_add(
                    old(self).file_tree.root,
                    final(self).file_tree.root,
                    path.deep_view().skip(path_length as int),
                    size,
                    is_dir,
                )
                &&& final(self).file_tree.current_folder_names == old(
                    self,
                ).file_tree.current_folder_names
                &&& final(self).file_tree.path_in_filesystem == old(
                    self,
                ).file_tree.path_in_filesystem
                &&& final(self).file_tree.space_freed == old(self).file_tree.space_freed
                &&& final(self).file_tree.failed_to_read == old(self).file_tree.failed_to_read
                &&& needs_render == (path.deep_view().skip(path_length as int).drop_last()
                    == old(self).file_tree.cursor())
                &&& needs_render ==> board_shows(
                    final(self).board,
                    final(self).file_tree.current_folder_spec().children@,
                    old(self).board.area,
                )
                &&& !needs_render ==> final(self).board == old(self).board
                &&& final(self).ui_mode == old(self).ui_mode
                &&& final(self).ui_effects == old(self).ui_effects
            },
            instruction is ReadFailed ==> {
                &&& final(self).file_tree.failed_to_read == (if old(self).file_tree.failed_to_read
                    < u64::MAX {
                    old(self).file_tree.failed_to_read + 1
                } else {
                    u64::MAX as int
                })
                &&& final(self).file_tree.root == old(self).file_tree.root
                &&& final(self).file_tree.current_folder_names == old(
                    self,
                ).file_tree.current_folder_names
                &&& final(self).file_tree.path_in_filesystem == old(
                    self,
                ).file_tree.path_in_filesystem
                &&& final(self).file_tree.space_freed == old(self).file_tree.space_freed
                &&& final(self).board == old(self).board
                &&& final(self).ui_mode == old(self).ui_mode
                &&& final(self).ui_effects == old(self).ui_effects
                &&& !needs_render
            },
            instruction is ProgressTick ==> {
                &&& final(self).ui_effects.loading_progress_indicator == (if old(
                    self,
                ).ui_effects.loading_progress_indicator < u64::MAX {
                    old(self).ui_effects.loading_progress_indicator + 1
                } else {
                    u64::MAX as int
                })
                &&& final(self).ui_effects.frame_around_current_path == old(
                    self,
                ).ui_effects.frame_around_current_path
                &&& final(self).ui_effects.frame_around_space_freed == old(
                    self,
                ).ui_effects.frame_around_space_freed
                &&& final(self).ui_effects.current_path_is_red == old(
                    self,
                ).ui_effects.current_path_is_red
                &&& final(self).file_tree == old(self).file_tree
                &&& final(self).board == old(self).board
                &&& final(self).ui_mode == old(self).ui_mode
                &&& needs_render
            },
            instruction is ScanComplete ==> {
                &&& final(self).ui_mode is Normal
                &&& final(self).file_tree == old(self).file_tree
                &&& final(self).ui_effects == old(self).ui_effects
                &&& board_shows(
                    final(self).board,
                    old(self).file_tree.current_folder_spec().children@,
                    old(self).board.area,
                )
                &&& needs_render
            },
            final(self).is_running == old(self).is_running,
    {
        match instruction {
            Instruction::EntryDiscovered { size, is_dir, path, path_length } => {
                let show = self.parent_is_displayed(&path, path_length);
                self.file_tree.add_entry(size, is_dir, &path, path_length);
                if show {
                    self.render_and_update_board();
                }
                show
            },
            Instruction::ReadFailed => {
                self.increment_failed_to_read();
                false
            },
            Instruction::ProgressTick => {
                self.increment_loading_progress_indicator();
                true
            },
            Instruction::ScanComplete => {
                self.start_ui();
                true
            },
        }
    }

    fn remove_file_from_ui(&mut self, file_to_delete: &FileToDelete)
        requires
            old(self).inv(),
            old(self).file_tree.delete_allowed(file_to_delete.path_to_file.deep_view()),
            old(self).file_tree.space_freed + file_to_delete.file_metadata.size <= u64::MAX,
        ensures
            final(self).inv(),
            after_delete(
                old(self).file_tree.root,
                final(self).file_tree.root,
                file_to_delete.path_to_file.deep_view(),
            ),
            final(self).file_tree.space_freed == old(self).file_tree.space_freed
                + file_to_delete.file_metadata.size,
            final(self).file_tree.current_folder_names == old(self).file_tree.current_folder_names,
            final(self).file_tree.path_in_filesystem == old(self).file_tree.path_in_filesystem,
            final(self).file_tree.failed_to_read == old(self).file_tree.failed_to_read,
            final(self).board.selected_index == 0,
            final(self).board.tiles == old(self).board.tiles,
            final(self).board.area == old(self).board.area,
            final(self).ui_mode == old(self).ui_mode,
            final(self).is_running == old(self).is_running,
            final(self).ui_effects == old(self).ui_effects,
    {
        self.file_tree.space_freed = self.file_tree.space_freed
            + file_to_delete.file_metadata.size;
        self.file_tree.delete_file(file_to_delete);
        self.board.reset_selected_index();
    }
}

} // verus!