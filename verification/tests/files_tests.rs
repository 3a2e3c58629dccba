use retsend::files::{
    base_name, dest_candidate, dest_path, dest_step, extension_of, is_free, is_inside, listing, mime_for, part_path,
    sanitize_filename, sanitize_relative_path, DestStep, DiskEntry, PathMeta, RawEntry, MAX_DEPTH, MAX_NAME_BYTES,
};
use retsend::fspath::FsPath;
use std::path::{Path, PathBuf};

fn path_of(p: &FsPath) -> PathBuf {
    PathBuf::from(p.to_path_string())
}

#[test]
fn sanitize_strips_paths_and_traversal() {
    for (hostile, expected) in [
        ("../../etc/passwd", "passwd"),
        ("/etc/passwd", "passwd"),
        ("..\\..\\windows\\system32\\cfg", "cfg"),
        ("a/b/c.gbc", "c.gbc"),
        ("..", "file"),
        (".", "file"),
        ("", "file"),
        ("...", "file"),
        (".hidden", "hidden"),
        ("name.", "name"),
        (" spaced ", "spaced"),
    ] {
        assert_eq!(sanitize_filename(hostile), expected, "input `{hostile}`");
    }
}

#[test]
fn sanitize_replaces_illegal_characters() {
    assert_eq!(sanitize_filename("a:b*c?d\"e<f>g|h"), "a_b_c_d_e_f_g_h");
    // NUL acts as a separator: only what follows it survives; other control
    // characters become `_`.
    assert_eq!(sanitize_filename("nul\0byte\ntab\t.gbc"), "byte_tab_.gbc");
}

#[test]
fn sanitize_caps_length_keeping_extension() {
    let long = format!("{}.gbc", "x".repeat(300));
    let out = sanitize_filename(&long);
    assert!(out.len() <= 200, "len {}", out.len());
    assert!(out.ends_with(".gbc"));

    // Multi-byte characters must not be split.
    let cyrillic = format!("{}.sav", "ы".repeat(300));
    let out = sanitize_filename(&cyrillic);
    assert!(out.len() <= 200);
    assert!(out.ends_with(".sav"));
}

#[test]
fn sanitized_name_stays_inside_save_dir() {
    let dir = Path::new("/tmp/save");
    for hostile in ["../../etc/passwd", "a/../../b", "..\\..\\x", "\0/etc/x"] {
        let joined = dir.join(sanitize_filename(hostile));
        assert_eq!(joined.parent(), Some(dir), "input `{hostile}`");
    }
}

#[test]
fn relative_path_keeps_the_senders_folders() {
    for (sent, expected) in [
        ("Roms/gb/Zelda.gbc", "Roms/gb/Zelda.gbc"),
        // Windows senders use backslashes.
        ("Roms\\gb\\Zelda.gbc", "Roms/gb/Zelda.gbc"),
        ("Zelda.gbc", "Zelda.gbc"),
        // Empty and `.` components drop out.
        ("Roms//gb/./Zelda.gbc", "Roms/gb/Zelda.gbc"),
        // Illegal characters are replaced per component.
        ("R:oms/g*b/Ze?lda.gbc", "R_oms/g_b/Ze_lda.gbc"),
    ] {
        assert_eq!(path_of(&sanitize_relative_path(sent)), PathBuf::from(expected), "input `{sent}`");
    }
}

#[test]
fn relative_path_cannot_escape_the_save_dir() {
    let dir = Path::new("/tmp/save");
    for hostile in [
        "../../etc/passwd",
        "roms/../../../etc/passwd",
        "..\\..\\windows\\system32\\cfg",
        "/etc/passwd",
        "\0/etc/passwd",
        "roms/..",
        "..",
        "",
    ] {
        let joined = dir.join(path_of(&sanitize_relative_path(hostile)));
        assert!(joined.starts_with(dir), "input `{hostile}` → {joined:?}");
        assert!(
            !joined.components().any(|c| c.as_os_str() == ".."),
            "input `{hostile}` kept a `..`"
        );
    }
    // The traversal is gone, the name it pointed at survives.
    assert_eq!(path_of(&sanitize_relative_path("roms/../../../etc/passwd")), PathBuf::from("roms/etc/passwd"));
}

#[test]
fn relative_path_caps_depth_and_component_length() {
    let deep: String = (0..MAX_DEPTH + 5).map(|i| format!("d{i}/")).collect::<String>() + "game.gbc";
    let path = path_of(&sanitize_relative_path(&deep));
    assert_eq!(path.components().count(), MAX_DEPTH + 1, "{path:?}");
    assert_eq!(path.file_name().unwrap(), "game.gbc");
    // The leading folders are the ones kept.
    assert!(path.starts_with("d0/d1"), "{path:?}");

    let long = format!("{}/{}.gbc", "x".repeat(300), "y".repeat(300));
    for component in path_of(&sanitize_relative_path(&long)).components() {
        assert!(component.as_os_str().len() <= MAX_NAME_BYTES);
    }
}

#[test]
fn relative_path_always_ends_in_a_name() {
    // A trailing separator leaves no name to use.
    assert_eq!(path_of(&sanitize_relative_path("roms/gb/")), PathBuf::from("roms/gb").join("file"));
    assert_eq!(path_of(&sanitize_relative_path("")), PathBuf::from("file"));
}

#[test]
fn is_inside_is_strict() {
    let dir = FsPath::parse("/roms/gb");
    assert!(is_inside(&dir, &FsPath::parse("/roms/gb/zelda.gbc")));
    assert!(is_inside(&dir, &FsPath::parse("/roms/gb/saves/zelda.sav")));
    assert!(!is_inside(&dir, &dir), "a folder does not contain itself");
    assert!(!is_inside(&dir, &FsPath::parse("/roms/gba/x.gba")));
    assert!(!is_inside(&dir, &FsPath::parse("/roms")));
}

#[test]
fn part_path_appends_a_tagged_suffix() {
    let part = part_path(&FsPath::parse("/save/game.gbc"), "a1b2c3d4");
    assert_eq!(path_of(&part), PathBuf::from("/save/game.gbc.a1b2c3d4.part"));
    // Still `.part`, so the sweep of stale parts keeps finding the debris.
    assert_eq!(path_of(&part).extension().unwrap(), "part");
}

#[test]
fn sanitized_names_are_never_dot_or_dot_dot() {
    for hostile in ["..", ".", " . ", "....", "\u{0}", "/", "\\", "a/.."] {
        let name = sanitize_filename(hostile);
        assert!(!name.is_empty());
        assert_ne!(name, ".");
        assert_ne!(name, "..");
        assert!(!name.contains('/') && !name.contains('\\'));
    }
}

#[test]
fn an_over_long_name_with_a_long_extension_cuts_both() {
    let raw = format!("{}.{}", "s".repeat(250), "e".repeat(40));
    let out = sanitize_filename(&raw);
    assert!(out.len() <= MAX_NAME_BYTES);
    // The extension keeps at most 20 bytes, dot included.
    assert!(out.ends_with(&format!(".{}", "e".repeat(19))));
    assert!(out.starts_with("sss"));
}

#[test]
fn paths_parse_into_components() {
    assert_eq!(FsPath::parse("/a//b/./c/").to_path_string(), "/a/b/c");
    assert_eq!(FsPath::parse("./a").to_path_string(), "./a");
    assert_eq!(FsPath::parse("a/../b").to_path_string(), "a/../b");
    assert_eq!(FsPath::parse("/").to_path_string(), "/");
    assert_eq!(FsPath::parse("").to_path_string(), "");
    assert!(FsPath::parse("/x/y").same(&FsPath::parse("/x/./y/")));
}

#[test]
fn base_name_is_the_last_component() {
    assert_eq!(base_name(&FsPath::parse("/roms/gb")), "gb");
    assert_eq!(base_name(&FsPath::parse("notes.txt")), "notes.txt");
    // No component of its own: the whole path stands in.
    assert_eq!(base_name(&FsPath::parse("/")), "/");
}

#[test]
fn extension_of_is_lowercase_without_the_dot() {
    assert_eq!(extension_of("foo.GBC"), "gbc");
    assert_eq!(extension_of("archive.tar.gz"), "gz");
    assert_eq!(extension_of("README"), "");
    assert_eq!(extension_of(".bashrc"), "");
}

#[test]
fn mime_types_follow_the_extension() {
    assert_eq!(mime_for(&FsPath::parse("/pics/shot.PNG")), "image/png");
    assert_eq!(mime_for(&FsPath::parse("a.jpeg")), "image/jpeg");
    assert_eq!(mime_for(&FsPath::parse("notes.md")), "text/plain");
    assert_eq!(mime_for(&FsPath::parse("game.gbc")), "application/octet-stream");
    assert_eq!(mime_for(&FsPath::parse("noext")), "application/octet-stream");
    assert_eq!(mime_for(&FsPath::parse("clip.webm")), "video/webm");
}

#[test]
fn dest_candidates_step_aside_with_a_counter() {
    let dir = FsPath::parse("/save");
    assert_eq!(dest_candidate(&dir, "game.gbc", 0).to_path_string(), "/save/game.gbc");
    assert_eq!(dest_candidate(&dir, "game.gbc", 1).to_path_string(), "/save/game (1).gbc");
    assert_eq!(dest_candidate(&dir, "README", 12).to_path_string(), "/save/README (12)");
}

#[test]
fn a_destination_is_free_as_the_disk_and_the_session_allow() {
    let taken = vec![FsPath::parse("/save/game.gbc")];
    let p = FsPath::parse("/save/game.gbc");
    let q = FsPath::parse("/save/other.gbc");
    assert!(!is_free(&taken, &p, true, DiskEntry::Absent), "the session has it");
    assert!(is_free(&taken, &q, false, DiskEntry::Absent));
    assert!(!is_free(&taken, &q, false, DiskEntry::Other));
    assert!(is_free(&taken, &q, true, DiskEntry::Other), "overwrite replaces a file");
    assert!(!is_free(&taken, &q, true, DiskEntry::Directory), "but not a directory");
}

#[test]
fn dest_path_steps_aside_from_the_session() {
    // A directory that is not on this machine: only the session collides.
    let dir = FsPath::parse("/nonexistent-retsend-dir/save");
    let mut taken = Vec::new();
    let first = dest_path(&dir, "game.gbc", &taken, false).unwrap();
    assert_eq!(first.to_path_string(), "/nonexistent-retsend-dir/save/game.gbc");
    taken.push(first);
    let second = dest_path(&dir, "game.gbc", &taken, false).unwrap();
    assert_eq!(second.to_path_string(), "/nonexistent-retsend-dir/save/game (1).gbc");
    taken.push(second);
    let third = dest_path(&dir, "game.gbc", &taken, true).unwrap();
    assert_eq!(third.to_path_string(), "/nonexistent-retsend-dir/save/game (2).gbc");
}

fn raw(dir: &str, name: &str, meta: Option<PathMeta>, symlink: Option<bool>) -> RawEntry {
    RawEntry { name: name.to_string(), path: FsPath::parse(dir).join(name), meta, symlink }
}

fn file(len: u64) -> Option<PathMeta> {
    Some(PathMeta { is_dir: false, len })
}

fn folder() -> Option<PathMeta> {
    Some(PathMeta { is_dir: true, len: 4096 })
}

#[test]
fn a_listing_puts_dirs_first_and_hides_what_it_should() {
    let read = vec![
        raw("/r", "readme.txt", file(2), Some(false)),
        raw("/r", "saves", folder(), Some(false)),
        raw("/r", ".hidden", file(1), Some(false)),
        raw("/r", "Games", folder(), Some(false)),
        raw("/r", "link", folder(), Some(true)),
        raw("/r", "broken", None, Some(false)),
        raw("/r", "unknown-type", file(3), None),
        raw("/r", "apple.gb", file(7), Some(false)),
    ];
    let rows = listing(&read);
    let names: Vec<&str> = rows.iter().map(|e| e.name.as_str()).collect();
    assert_eq!(names, ["Games", "saves", "apple.gb", "readme.txt"]);
    assert!(rows[0].is_dir && rows[0].size == 0, "a directory's size is 0");
    assert_eq!(rows[2].size, 7);
    assert_eq!(rows[3].path.to_path_string(), "/r/readme.txt");
}

#[test]
fn a_listing_keeps_read_order_between_equal_names() {
    let read = vec![raw("/r", "B.txt", file(1), Some(false)), raw("/r", "b.txt", file(2), Some(false))];
    let rows = listing(&read);
    assert_eq!(rows[0].size, 1);
    assert_eq!(rows[1].size, 2);
}

#[test]
fn a_listing_sorts_names_without_regard_to_case() {
    let read = vec![raw("/r", "B.txt", file(1), Some(false)), raw("/r", "a.txt", file(2), Some(false))];
    let rows = listing(&read);
    let names: Vec<&str> = rows.iter().map(|e| e.name.as_str()).collect();
    assert_eq!(names, ["a.txt", "B.txt"]);
}

#[test]
fn each_disk_answer_decides_one_step_of_the_search() {
    let dir = FsPath::parse("/save");
    let taken = vec![FsPath::parse("/save/game (1).gbc")];
    match dest_step(&dir, "game.gbc", &taken, false, 0, DiskEntry::Absent) {
        DestStep::Found(p) => assert_eq!(p.to_path_string(), "/save/game.gbc"),
        _ => panic!("nothing is there"),
    }
    assert!(matches!(dest_step(&dir, "game.gbc", &taken, false, 0, DiskEntry::Other), DestStep::Next(1)));
    assert!(matches!(dest_step(&dir, "game.gbc", &taken, true, 1, DiskEntry::Absent), DestStep::Next(2)), "the session has it");
    match dest_step(&dir, "game.gbc", &taken, true, 2, DiskEntry::Other) {
        DestStep::Found(p) => assert_eq!(p.to_path_string(), "/save/game (2).gbc"),
        _ => panic!("overwrite replaces a file"),
    }
    assert!(matches!(dest_step(&dir, "game.gbc", &taken, true, u32::MAX, DiskEntry::Directory), DestStep::Exhausted));
}
