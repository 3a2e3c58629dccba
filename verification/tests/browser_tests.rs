use retsend::browser::{existing_paths, wants_home_root, BrowserMode, DirPurpose, FileBrowser, Taken};
use retsend::files::{listing, DirEntry, PathMeta, RawEntry, SendList};
use retsend::fspath::FsPath;
use retsend::browser::Picked;
use retsend::walk::walk_folder;

/// A directory tree held in memory: each folder with its children, a child
/// being a name, whether it is a folder, and its size.
struct Tree {
    dirs: Vec<(String, Vec<(String, bool, u64)>)>,
}

impl Tree {
    /// `/t` holding `games/` (`zelda.gbc`, `mario.gb`), the empty `saves/`,
    /// `readme.txt` and a dotfile.
    fn sample() -> Tree {
        Tree {
            dirs: vec![
                (
                    "/t".to_string(),
                    vec![
                        ("readme.txt".to_string(), false, 2),
                        ("games".to_string(), true, 0),
                        (".hidden".to_string(), false, 1),
                        ("saves".to_string(), true, 0),
                    ],
                ),
                (
                    "/t/games".to_string(),
                    vec![("zelda.gbc".to_string(), false, 100), ("mario.gb".to_string(), false, 50)],
                ),
                ("/t/saves".to_string(), vec![]),
            ],
        }
    }

    fn children(&self, dir: &str) -> Option<&Vec<(String, bool, u64)>> {
        self.dirs.iter().find(|(d, _)| d == dir).map(|(_, c)| c)
    }

    /// The directory's listing, as the app reads it.
    fn list(&self, dir: &FsPath) -> Result<Vec<DirEntry>, String> {
        let text = dir.to_path_string();
        let Some(children) = self.children(&text) else {
            return Err("No such file or directory".to_string());
        };
        let raw: Vec<RawEntry> = children
            .iter()
            .map(|(name, is_dir, size)| RawEntry {
                name: name.clone(),
                path: dir.join(name),
                meta: Some(PathMeta { is_dir: *is_dir, len: *size }),
                symlink: Some(false),
            })
            .collect();
        Ok(listing(&raw))
    }

    /// What the disk says of a path.
    fn meta(&self, path: &FsPath) -> Option<PathMeta> {
        let text = path.to_path_string();
        if self.children(&text).is_some() {
            return Some(PathMeta { is_dir: true, len: 0 });
        }
        let parent = path.parent()?;
        let name = path.file_name()?;
        let children = self.children(&parent.to_path_string())?;
        children
            .iter()
            .find(|(n, _, _)| *n == name)
            .map(|(_, is_dir, size)| PathMeta { is_dir: *is_dir, len: *size })
    }

    /// Serves the browser's pending loads; the last outcome.
    fn settle(&self, b: &mut FileBrowser) -> Result<(), String> {
        let mut last = Ok(());
        while let Some(dir) = b.pending_load() {
            let metas: Vec<Option<PathMeta>> = b.pinned.iter().map(|p| self.meta(p)).collect();
            last = b.finish_load(self.list(&dir), &metas);
        }
        last
    }

    /// The walk of `dir`, served from the tree.
    fn walk(&self, dir: &FsPath) -> SendList {
        let mut w = walk_folder(dir);
        while let Some(next) = w.next_dir() {
            w.feed(self.list(&next));
        }
        w.finish()
    }

    /// X, with the walk the browser asks for.
    fn take(&self, b: &mut FileBrowser) -> Option<Taken> {
        let walked = match b.take_target() {
            Some(dir) => self.walk(&dir),
            None => SendList::new(),
        };
        b.take(&walked)
    }
}

fn p(s: &str) -> FsPath {
    FsPath::parse(s)
}

fn browser_at(tree: &Tree, root: &str) -> FileBrowser {
    let mut b = FileBrowser::new();
    b.roots = vec![p(root)];
    b.open = true;
    b.change_dir(p(root));
    tree.settle(&mut b).unwrap();
    b
}

fn browser_with_pins(tree: &Tree, root: &str, pins: &[&str]) -> FileBrowser {
    let mut b = FileBrowser::new();
    b.roots = vec![p(root)];
    b.pinned = pins.iter().map(|s| p(s)).collect();
    b.open = true;
    b.change_dir(p(root));
    tree.settle(&mut b).unwrap();
    b
}

fn names(b: &FileBrowser) -> Vec<&str> {
    b.entries.iter().map(|e| e.name.as_str()).collect()
}

#[test]
fn home_inside_a_root_is_not_a_root_of_its_own() {
    let card = p("/mnt/SDCARD");
    let roots = vec![card.duplicate()];
    assert!(!wants_home_root(&roots, &card.join("Apps/Retsend.pak")));
    assert!(wants_home_root(&roots, &p("/home/user")));
    assert!(wants_home_root(&vec![], &p("/home/user")));
}

#[test]
fn lists_dirs_first_and_hides_dotfiles() {
    let tree = Tree::sample();
    let b = browser_at(&tree, "/t");
    assert_eq!(names(&b), ["games", "saves", "readme.txt"]);
}

#[test]
fn pinned_paths_lead_the_listing() {
    let tree = Tree::sample();
    let b = browser_with_pins(&tree, "/t", &["/t/games"]);
    assert_eq!(names(&b), ["games", "games", "saves", "readme.txt"]);
    assert!(b.entries[0].pinned);
    assert!(!b.entries[1].pinned);
    assert_eq!(b.pinned_rows(), 1);
}

#[test]
fn a_pinned_row_navigates_like_a_directory() {
    let tree = Tree::sample();
    let mut b = browser_with_pins(&tree, "/t", &["/t/games"]);
    b.activate().unwrap();
    tree.settle(&mut b).unwrap();
    assert_eq!(b.cwd.to_path_string(), "/t/games");
    assert!(b.entries[0].pinned);
}

#[test]
fn toggle_pin_acts_on_the_row_under_the_cursor() {
    let tree = Tree::sample();
    let mut b = browser_at(&tree, "/t");
    assert!(!b.target_is_pinned());

    let change = b.toggle_pin().expect("the cursor is on a row");
    tree.settle(&mut b).unwrap();
    assert!(change.pinned);
    assert_eq!(change.path.to_path_string(), "/t/games", "the row, not the folder we stand in");
    assert_eq!(change.paths, vec!["/t/games".to_string()]);
    assert!(b.entries[0].pinned, "the row shows up without a reopen");

    // The cursor followed its row down, so Y now unpins from the real row.
    let change = b.toggle_pin().expect("the cursor is on a row");
    tree.settle(&mut b).unwrap();
    assert!(!change.pinned);
    assert_eq!(change.path.to_path_string(), "/t/games");
    assert!(change.paths.is_empty());
    assert!(!b.entries[0].pinned, "and goes away again");
}

#[test]
fn a_pinned_row_can_be_unpinned_from_the_top_of_the_listing() {
    let tree = Tree::sample();
    let mut b = browser_with_pins(&tree, "/t", &["/t/games"]);
    assert!(b.target_is_pinned(), "cursor starts on the pinned row");
    let change = b.toggle_pin().expect("the cursor is on a row");
    tree.settle(&mut b).unwrap();
    assert!(!change.pinned);
    assert!(change.paths.is_empty());
    assert!(!b.entries.iter().any(|e| e.pinned));
}

#[test]
fn files_can_be_pinned_and_keep_their_size() {
    let tree = Tree::sample();
    let mut b = browser_at(&tree, "/t");
    b.move_cursor(2); // games, saves, readme.txt
    let change = b.toggle_pin().expect("the cursor is on a row");
    tree.settle(&mut b).unwrap();
    assert!(change.pinned);
    assert_eq!(change.path.to_path_string(), "/t/readme.txt");
    let pinned = &b.entries[0];
    assert!(pinned.pinned && !pinned.is_dir);
    assert_eq!(pinned.size, 2);

    // A on it selects the file for sending, as any file row would.
    b.set_cursor(0);
    b.activate().unwrap();
    assert!(b.selected.contains(&p("/t/readme.txt")));
}

#[test]
fn pinned_files_stay_out_of_the_folder_picker() {
    let tree = Tree::sample();
    let mut b = FileBrowser::new();
    b.roots = vec![p("/t")];
    b.mode = BrowserMode::PickDir;
    b.pinned = vec![p("/t/readme.txt"), p("/t/games")];
    b.open = true;
    b.change_dir(p("/t"));
    tree.settle(&mut b).unwrap();
    let pinned: Vec<String> = b.entries.iter().filter(|e| e.pinned).map(|e| e.path.to_path_string()).collect();
    assert_eq!(pinned, vec!["/t/games".to_string()], "a file cannot answer \"choose a folder\"");
}

#[test]
fn an_empty_listing_pins_the_folder_being_looked_at() {
    let tree = Tree::sample();
    let mut b = browser_at(&tree, "/t");
    b.change_dir(p("/t/saves"));
    tree.settle(&mut b).unwrap();
    assert!(b.entries.is_empty());
    let change = b.toggle_pin().expect("the cwd stands in for the missing row");
    assert!(change.pinned);
    assert_eq!(change.path.to_path_string(), "/t/saves");
}

#[test]
fn x_takes_every_file_of_the_folder_and_gives_them_back() {
    let tree = Tree::sample();
    let mut b = browser_at(&tree, "/t");
    b.move_cursor(2); // readme.txt; on a directory row X takes the folder
    let Some(Taken::Files { files, bytes }) = tree.take(&mut b) else {
        panic!("readme.txt is here");
    };
    assert_eq!(files, 1, "only files; games/ and saves/ are their own rows");
    assert_eq!(bytes, 2);
    assert!(b.selected.contains(&p("/t/readme.txt")));

    // Pressing it again on a fully selected folder clears it.
    let Some(Taken::Given { name, files }) = tree.take(&mut b) else {
        panic!("everything here was already taken");
    };
    assert!(name.is_none(), "the folder itself was never picked");
    assert_eq!(files, 1);
    assert_eq!(b.selected.len(), 0);
}

#[test]
fn x_completes_a_partial_selection_instead_of_clearing_it() {
    let tree = Tree::sample();
    let mut b = browser_at(&tree, "/t");
    b.change_dir(p("/t/games"));
    tree.settle(&mut b).unwrap();
    b.activate().unwrap(); // mario.gb, the first row
    assert_eq!(b.selected.len(), 1);
    let Some(Taken::Files { files, .. }) = tree.take(&mut b) else {
        panic!("one of two was selected, so X takes the rest");
    };
    assert_eq!(files, 2);
    assert_eq!(b.selected.len(), 2);
}

#[test]
fn x_leaves_pinned_rows_alone() {
    let tree = Tree::sample();
    let mut b = browser_with_pins(&tree, "/t", &["/t/games/zelda.gbc"]);
    b.set_cursor(3); // the pin, games/, saves/, then readme.txt
    let Some(Taken::Files { files, .. }) = tree.take(&mut b) else {
        panic!("readme.txt is here");
    };
    assert_eq!(files, 1, "the pinned row belongs to games/, not here");
    assert!(!b.selected.contains(&p("/t/games/zelda.gbc")));
}

#[test]
fn x_takes_the_folder_under_the_cursor_and_gives_it_back() {
    let tree = Tree::sample();
    let mut b = browser_at(&tree, "/t"); // cursor on games/
    let Some(Taken::Folder { name, files, bytes, partial }) = tree.take(&mut b) else {
        panic!("the cursor is on a directory");
    };
    assert_eq!(name, "games");
    assert_eq!((files, bytes), (2, 150));
    assert!(!partial);
    assert_eq!(b.selection_totals(), (2, 150), "the tree, not the row");
    assert!(b.selected.get(&p("/t/games")).unwrap().is_dir);

    let Some(Taken::Given { name, files }) = tree.take(&mut b) else {
        panic!("it was picked a moment ago");
    };
    assert_eq!((name.as_deref(), files), (Some("games"), 2));
    assert_eq!(b.selected.len(), 0);
}

#[test]
fn a_picked_folder_carries_what_is_under_it() {
    let tree = Tree::sample();
    let mut b = browser_at(&tree, "/t");
    b.change_dir(p("/t/games"));
    tree.settle(&mut b).unwrap();
    b.activate().unwrap(); // mario.gb
    assert_eq!(b.selection_totals(), (1, 50));

    assert!(b.parent());
    tree.settle(&mut b).unwrap();
    tree.take(&mut b).expect("the cursor landed back on games/");
    let picked: Vec<String> = b.selected_paths().iter().map(|x| x.to_path_string()).collect();
    assert_eq!(picked, vec!["/t/games".to_string()], "the file it already held went with it");
    assert_eq!(b.selection_totals(), (2, 150));

    // Back inside, its files read as taken and cannot be taken again.
    b.change_dir(p("/t/games"));
    tree.settle(&mut b).unwrap();
    assert_eq!(b.covered_by(&p("/t/games/mario.gb")).map(|x| x.to_path_string()), Some("/t/games".to_string()));
    assert_eq!(b.activate().unwrap_err(), "Already in games", "A on a file the folder already carries");
    assert_eq!(b.selection_totals(), (2, 150));
}

#[test]
fn x_reports_a_folder_with_nothing_in_it() {
    let tree = Tree::sample();
    let mut b = browser_at(&tree, "/t");
    b.move_cursor(1); // saves/, which is empty
    assert!(matches!(tree.take(&mut b), Some(Taken::Nothing)));
    assert_eq!(b.selected.len(), 0, "an empty pick would total nothing");
}

#[test]
fn x_does_nothing_when_a_folder_is_being_chosen() {
    let tree = Tree::sample();
    let mut b = FileBrowser::new();
    b.open_for_dir(&p("/nonexistent/card/roms"), &vec![], &vec![], None, &vec![], DirPurpose::SaveDir, "");
    b.roots = vec![p("/t")];
    b.change_dir(p("/t"));
    tree.settle(&mut b).unwrap();
    assert!(tree.take(&mut b).is_none());
}

#[test]
fn a_staged_folder_opens_the_browser_already_holding_its_tree() {
    let tree = Tree::sample();
    let games = p("/t/games");
    let walked = tree.walk(&games);
    let staged = vec![
        (games.duplicate(), Some(Picked { bytes: walked.bytes, files: walked.files.len(), is_dir: true })),
        (p("/t/games/mario.gb"), Some(Picked { bytes: 50, files: 1, is_dir: false })),
    ];
    let mut b = FileBrowser::new();
    b.open_for_send("Phone", &vec![], &vec![], None, &vec![], &staged, &p("/nonexistent/start"));
    let picked: Vec<String> = b.selected_paths().iter().map(|x| x.to_path_string()).collect();
    assert_eq!(picked, vec!["/t/games".to_string()]);
    assert_eq!(b.selection_totals(), (2, 150));
    assert_eq!(b.target_alias, "Phone");
    assert!(b.open && b.mode == BrowserMode::PickFiles);
}

#[test]
fn pinning_keeps_the_highlight_on_the_same_row() {
    let tree = Tree::sample();
    let mut b = browser_at(&tree, "/t");
    b.move_cursor(1); // "saves", with "games" above it
    let before = b.entries[b.cursor].path.to_path_string();

    b.toggle_pin().expect("the cursor is on a row");
    tree.settle(&mut b).unwrap();
    assert_eq!(b.entries[b.cursor].path.to_path_string(), before, "pinned row pushed it down");

    b.toggle_pin().expect("the cursor is on a row");
    tree.settle(&mut b).unwrap();
    assert_eq!(b.entries[b.cursor].path.to_path_string(), before, "and unpinning pulled it back");
}

#[test]
fn pinned_paths_that_no_longer_exist_are_skipped() {
    let tree = Tree::sample();
    let b = browser_with_pins(&tree, "/t", &["/t/games", "/nonexistent/card/roms", "/t/readme.txt"]);
    let pinned: Vec<&str> = b.entries.iter().filter(|e| e.pinned).map(|e| e.name.as_str()).collect();
    assert_eq!(pinned, ["games", "readme.txt"]);
}

#[test]
fn configured_pins_that_are_not_on_disk_are_dropped() {
    let pins = existing_paths(&vec!["/nonexistent/card/roms".to_string(), "  /  ".to_string(), "/".to_string()]);
    let shown: Vec<String> = pins.iter().map(|x| x.to_path_string()).collect();
    assert_eq!(shown, vec!["/".to_string()], "trimmed, once, and only what exists");
}

#[test]
fn start_at_falls_back_when_the_remembered_folder_is_gone() {
    let tree = Tree::sample();
    let mut b = FileBrowser::new();
    b.open_for_dir(&p("/nonexistent/card/roms"), &vec![], &vec![], Some("/nonexistent/home"), &vec![], DirPurpose::SaveDir, "");
    // There is always a root, and the first one is what gets listed.
    assert!(!b.roots.is_empty());
    assert_eq!(b.pending_load().map(|x| x.to_path_string()), Some(b.roots[0].to_path_string()));
    assert!(b.open && b.mode == BrowserMode::PickDir && b.dir_purpose == DirPurpose::SaveDir);
    let _ = tree;
}

#[test]
fn selection_survives_navigation() {
    let tree = Tree::sample();
    let mut b = browser_at(&tree, "/t");
    b.activate().unwrap(); // enter games/
    tree.settle(&mut b).unwrap();
    assert!(b.cwd.to_path_string().ends_with("games"));
    b.move_cursor(1); // mario.gb, zelda.gbc sorted: cursor 1 = zelda
    b.activate().unwrap();
    b.move_cursor(-1);
    b.activate().unwrap();
    assert_eq!(b.selection_totals(), (2, 150));

    assert!(b.parent()); // back to the root, cursor on games/
    tree.settle(&mut b).unwrap();
    assert_eq!(b.entries[b.cursor].name, "games");
    assert_eq!(b.selection_totals(), (2, 150));

    // Toggling off removes from the set.
    b.change_dir(p("/t/games"));
    tree.settle(&mut b).unwrap();
    b.activate().unwrap(); // deselect mario (cursor 0)
    assert_eq!(b.selection_totals().0, 1);
}

#[test]
fn parent_stops_at_root() {
    let tree = Tree::sample();
    let mut b = browser_at(&tree, "/t");
    b.activate().unwrap(); // into games/
    tree.settle(&mut b).unwrap();
    assert!(b.parent()); // back at the root
    tree.settle(&mut b).unwrap();
    assert!(!b.parent()); // at the root: signal close
}

#[test]
fn cursor_clamps() {
    let tree = Tree::sample();
    let mut b = browser_at(&tree, "/t");
    b.move_cursor(100);
    assert_eq!(b.cursor, b.entries.len() - 1);
    b.move_cursor(-100);
    assert_eq!(b.cursor, 0);
    b.set_cursor(77);
    assert_eq!(b.cursor, b.entries.len() - 1);
}

#[test]
fn an_unreadable_folder_reports_itself_and_changes_nothing() {
    let tree = Tree::sample();
    let mut b = browser_at(&tree, "/t");
    b.change_dir(p("/t/gone"));
    let err = tree.settle(&mut b).unwrap_err();
    assert_eq!(err, "/t/gone: No such file or directory");
    assert_eq!(b.cwd.to_path_string(), "/t");
    assert_eq!(names(&b), ["games", "saves", "readme.txt"]);
}

#[test]
fn closing_lets_go_of_the_listing_and_the_selection() {
    let tree = Tree::sample();
    let mut b = browser_at(&tree, "/t");
    b.move_cursor(2);
    b.activate().unwrap();
    b.close();
    assert!(!b.open);
    assert!(b.entries.is_empty());
    assert_eq!(b.selected.len(), 0);
}

#[test]
fn cycle_root_moves_the_carousel() {
    let tree = Tree::sample();
    let mut b = browser_at(&tree, "/t");
    b.roots = vec![p("/t"), p("/t/games")];
    let next = b.cycle_root().unwrap();
    assert_eq!(next.to_path_string(), "/t/games");
    tree.settle(&mut b).unwrap();
    assert_eq!(b.cwd.to_path_string(), "/t/games");
    let back = b.cycle_root().unwrap();
    assert_eq!(back.to_path_string(), "/t");
}

#[test]
fn a_start_folder_that_cannot_be_listed_falls_back_to_the_first_root() {
    let tree = Tree::sample();
    let mut b = FileBrowser::new();
    b.roots = vec![p("/t")];
    b.open = true;
    // The disk called it a directory, but its listing fails.
    b.start_load(&p("/t/gone"), true);
    assert_eq!(b.pending_load().map(|x| x.to_path_string()), Some("/t/gone".to_string()));
    assert!(b.finish_load(tree.list(&p("/t/gone")), &vec![]).is_err());
    assert_eq!(b.pending_load().map(|x| x.to_path_string()), Some("/t".to_string()));
    tree.settle(&mut b).unwrap();
    assert_eq!(b.cwd.to_path_string(), "/t");
    assert_eq!(b.cursor, 0);
}

#[test]
fn a_start_that_is_no_directory_goes_to_the_first_root() {
    let tree = Tree::sample();
    let mut b = FileBrowser::new();
    b.roots = vec![p("/t")];
    b.open = true;
    b.start_load(&p("/t/readme.txt"), false);
    assert_eq!(b.pending_load().map(|x| x.to_path_string()), Some("/t".to_string()));
    tree.settle(&mut b).unwrap();
    assert_eq!(b.cwd.to_path_string(), "/t");
    assert_eq!(b.cursor, 0);
}

#[test]
fn going_up_lands_on_the_folder_left() {
    let tree = Tree::sample();
    let mut b = browser_at(&tree, "/t");
    b.set_cursor(1);
    assert_eq!(b.entries[1].name, "saves");
    b.activate().unwrap();
    tree.settle(&mut b).unwrap();
    assert_eq!(b.cwd.to_path_string(), "/t/saves");
    assert_eq!(b.cursor, 0);
    assert!(b.parent());
    tree.settle(&mut b).unwrap();
    assert_eq!(b.entries[b.cursor].name, "saves");
}
