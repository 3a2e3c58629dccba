use retsend::expand::{expand_sources, pick_sources, plan_sources, Planned, Source};
use retsend::files::{listing, DirEntry, PathMeta, RawEntry, SendList};
use retsend::fspath::FsPath;
use retsend::outbound::{
    check_unchanged, FileState, OutboundPhase, OutboundSession, OutboundStep, PrepareError, SendError, UPLOAD_ATTEMPTS,
};
use retsend::walk::{
    sweep_stale_parts, walk_folder, SweepEntry, MAX_SEND_DEPTH, MAX_SEND_FILES, MAX_SWEEP_AGE_SECS,
};

/// A directory tree held in memory: folder path, then its children as name,
/// folder or not, size.
struct Disk {
    dirs: Vec<(String, Vec<(String, bool, u64)>)>,
}

impl Disk {
    /// `/c/roms` holding `gb/zelda.gbc`, `gb/saves/zelda.sav` and
    /// `notes.txt`, plus a dotfile and an empty folder a walk passes over.
    fn send_tree() -> Disk {
        let f = |n: &str, s: u64| (n.to_string(), false, s);
        let d = |n: &str| (n.to_string(), true, 0);
        Disk {
            dirs: vec![
                ("/c".to_string(), vec![d("roms")]),
                ("/c/roms".to_string(), vec![f("notes.txt", 2), d("gb"), f(".hidden", 1), d("empty")]),
                ("/c/roms/gb".to_string(), vec![f("zelda.gbc", 100), d("saves")]),
                ("/c/roms/gb/saves".to_string(), vec![f("zelda.sav", 8)]),
                ("/c/roms/empty".to_string(), vec![]),
            ],
        }
    }

    fn children(&self, dir: &str) -> Option<&Vec<(String, bool, u64)>> {
        self.dirs.iter().find(|(d, _)| d == dir).map(|(_, c)| c)
    }

    fn list(&self, dir: &FsPath) -> Result<Vec<DirEntry>, String> {
        let Some(children) = self.children(&dir.to_path_string()) else {
            return Err("No such file or directory".to_string());
        };
        let raw: Vec<RawEntry> = children
            .iter()
            .map(|(name, is_dir, size)| RawEntry {
                name: name.clone(),
                path: dir.join(name),
                meta: Some(PathMeta { is_dir: *is_dir, len: *size }),
                symlink: Some(false),
            })
            .collect();
        Ok(listing(&raw))
    }

    fn meta(&self, path: &FsPath) -> Result<PathMeta, String> {
        if self.children(&path.to_path_string()).is_some() {
            return Ok(PathMeta { is_dir: true, len: 0 });
        }
        let missing = || "No such file or directory".to_string();
        let parent = path.parent().ok_or_else(missing)?;
        let name = path.file_name().ok_or_else(missing)?;
        let children = self.children(&parent.to_path_string()).ok_or_else(missing)?;
        children
            .iter()
            .find(|(n, _, _)| *n == name)
            .map(|(_, is_dir, size)| PathMeta { is_dir: *is_dir, len: *size })
            .ok_or_else(missing)
    }

    /// What picked paths expand to, the disk read as the expansion asks.
    fn expand(&self, picks: &[&str]) -> Result<SendList, String> {
        let sources: Vec<Source> = picks
            .iter()
            .map(|s| {
                let path = FsPath::parse(s);
                let meta = self.meta(&path);
                Source { path, meta }
            })
            .collect();
        let mut x = expand_sources(&sources)?;
        while let Some(dir) = x.next_dir() {
            x.feed(self.list(&dir));
        }
        Ok(x.finish())
    }

    fn walk(&self, dir: &str) -> SendList {
        let mut w = walk_folder(&FsPath::parse(dir));
        while let Some(next) = w.next_dir() {
            w.feed(self.list(&next));
        }
        w.finish()
    }
}

fn names(list: &SendList) -> Vec<&str> {
    list.files.iter().map(|f| f.name.as_str()).collect()
}

#[test]
fn a_folder_expands_to_its_tree_under_its_own_name() {
    let disk = Disk::send_tree();
    let list = disk.expand(&["/c/roms"]).unwrap();
    // Dirs first, as the listing shows them; the dotfile is not sent.
    assert_eq!(names(&list), ["roms/gb/saves/zelda.sav", "roms/gb/zelda.gbc", "roms/notes.txt"]);
    assert_eq!(list.bytes, 110);
    assert!(!list.partial);
    assert_eq!(list.files[1].path.to_path_string(), "/c/roms/gb/zelda.gbc");
}

#[test]
fn a_loose_file_keeps_its_bare_name() {
    let disk = Disk::send_tree();
    let list = disk.expand(&["/c/roms/notes.txt"]).unwrap();
    assert_eq!(names(&list), ["notes.txt"]);
}

#[test]
fn a_source_inside_a_picked_folder_is_not_sent_twice() {
    let disk = Disk::send_tree();
    let list = disk
        .expand(&[
            "/c/roms/gb/zelda.gbc",
            "/c/roms",
            "/c/roms/gb",
            "/c/roms", // the same pick twice
        ])
        .unwrap();
    assert_eq!(names(&list), ["roms/gb/saves/zelda.sav", "roms/gb/zelda.gbc", "roms/notes.txt"]);
    assert_eq!(list.bytes, 110);
}

#[test]
fn an_empty_folder_expands_to_nothing() {
    let disk = Disk::send_tree();
    let list = disk.expand(&["/c/roms/empty"]).unwrap();
    assert!(list.files.is_empty() && !list.partial);
}

#[test]
fn a_missing_source_is_an_error() {
    let disk = Disk::send_tree();
    assert!(disk.expand(&["/nonexistent/card/roms"]).is_err());
}

#[test]
fn a_missing_source_inside_a_picked_folder_is_no_error() {
    let disk = Disk::send_tree();
    let list = disk.expand(&["/c/roms/gone.txt", "/c/roms"]).unwrap();
    assert_eq!(list.files.len(), 3);
}

#[test]
fn picks_are_sorted_and_deduplicated_keeping_the_first() {
    let picks = vec![
        Source { path: FsPath::parse("/b"), meta: Ok(PathMeta { is_dir: false, len: 1 }) },
        Source { path: FsPath::parse("/a/z"), meta: Ok(PathMeta { is_dir: false, len: 2 }) },
        Source { path: FsPath::parse("/b/"), meta: Ok(PathMeta { is_dir: false, len: 3 }) },
        Source { path: FsPath::parse("/a"), meta: Err("gone".to_string()) },
    ];
    let picked = pick_sources(&picks);
    let shown: Vec<String> = picked.iter().map(|s| s.path.to_path_string()).collect();
    assert_eq!(shown, ["/a", "/a/z", "/b"]);
    assert!(matches!(picked[2].meta, Ok(PathMeta { len: 1, .. })), "the first occurrence's metadata");

    // `/a` could not be read, and nothing holds it: the plan fails with its error.
    assert_eq!(plan_sources(&picked).err(), Some("gone".to_string()));
}

#[test]
fn a_plan_walks_folders_and_sends_files_by_name() {
    let picks = vec![
        Source { path: FsPath::parse("/x/dir"), meta: Ok(PathMeta { is_dir: true, len: 0 }) },
        Source { path: FsPath::parse("/x/dir/inner.bin"), meta: Err("unreadable".to_string()) },
        Source { path: FsPath::parse("/y/file.bin"), meta: Ok(PathMeta { is_dir: false, len: 9 }) },
    ];
    let plan = plan_sources(&pick_sources(&picks)).unwrap();
    assert_eq!(plan.len(), 2);
    assert!(matches!(&plan[0], Planned::Folder { path } if path.to_path_string() == "/x/dir"));
    assert!(matches!(&plan[1], Planned::File { name, size: 9, .. } if name == "file.bin"));
}

#[test]
fn the_walk_stops_at_the_send_cap_and_says_so() {
    let many: Vec<(String, bool, u64)> = (0..MAX_SEND_FILES + 10).map(|i| (format!("{i:05}.bin"), false, 1)).collect();
    let disk = Disk { dirs: vec![("/c/many".to_string(), many)] };
    let list = disk.walk("/c/many");
    assert_eq!(list.files.len(), MAX_SEND_FILES);
    assert!(list.partial);
    assert_eq!(list.bytes, MAX_SEND_FILES as u64);
}

#[test]
fn the_walk_stops_going_deeper_and_says_so() {
    let mut dirs = vec![("/c/tree".to_string(), vec![("d0".to_string(), true, 0), ("top.bin".to_string(), false, 1)])];
    let mut path = "/c/tree".to_string();
    for i in 0..MAX_SEND_DEPTH + 2 {
        path = format!("{path}/d{i}");
        let child = if i == MAX_SEND_DEPTH + 1 {
            vec![("buried.bin".to_string(), false, 1)]
        } else {
            vec![(format!("d{}", i + 1), true, 0)]
        };
        dirs.push((path.clone(), child));
    }
    let disk = Disk { dirs };
    let list = disk.walk("/c/tree");
    assert_eq!(names(&list), ["tree/top.bin"]);
    assert!(list.partial, "the buried file was left out");
}

#[test]
fn an_unreadable_folder_makes_the_walk_partial() {
    let disk = Disk { dirs: vec![] };
    let list = disk.walk("/c/gone");
    assert!(list.files.is_empty());
    assert!(list.partial);
}

/// Debris a folder transfer left a level down is swept too, and a fresh
/// part, a transfer that may still be running, is not.
#[test]
fn the_sweep_reaches_debris_in_subfolders() {
    let old = Some(MAX_SWEEP_AGE_SECS * 2);
    let fresh = Some(5);
    let entry = |p: &str, is_dir: bool, age: Option<u64>| SweepEntry { path: FsPath::parse(p), is_dir: Some(is_dir), age_secs: age };
    let listings = vec![
        ("/s".to_string(), vec![entry("/s/top.gbc.aabbccdd.part", false, old), entry("/s/Zelda", true, old)]),
        ("/s/Zelda".to_string(), vec![entry("/s/Zelda/saves", true, old)]),
        (
            "/s/Zelda/saves".to_string(),
            vec![
                entry("/s/Zelda/saves/deep.sav.11223344.part", false, old),
                entry("/s/Zelda/saves/running.sav.55667788.part", false, fresh),
                entry("/s/Zelda/saves/keep.sav", false, old),
            ],
        ),
    ];
    let mut sweep = sweep_stale_parts(&FsPath::parse("/s"));
    let mut removed: Vec<String> = Vec::new();
    while let Some(dir) = sweep.next_dir() {
        let text = dir.to_path_string();
        let rows = listings
            .iter()
            .find(|(d, _)| *d == text)
            .map(|(_, rows)| rows.iter().map(|e| SweepEntry { path: e.path.duplicate(), is_dir: e.is_dir, age_secs: e.age_secs }).collect());
        for p in sweep.feed(rows) {
            removed.push(p.to_path_string());
        }
    }
    assert_eq!(removed, ["/s/top.gbc.aabbccdd.part", "/s/Zelda/saves/deep.sav.11223344.part"]);
}

fn session_of(names: &[(&str, u64)]) -> OutboundSession {
    let mut list = SendList::new();
    let mut files = Vec::new();
    let mut bytes = 0;
    for (name, size) in names {
        files.push(retsend::files::SendFile { path: FsPath::parse(&format!("/c/{name}")), name: name.to_string(), size: *size });
        bytes += size;
    }
    list.files = files;
    list.bytes = bytes;
    OutboundSession::prepare("Phone".to_string(), "http://10.0.0.2:53317".to_string(), vec![], list).unwrap()
}

fn tokens_for(s: &OutboundSession, which: &[usize]) -> Vec<(String, String)> {
    which.iter().map(|&i| (s.files[i].meta.id.clone(), format!("token{i}"))).collect()
}

#[test]
fn a_send_is_prepared_from_its_list() {
    let s = session_of(&[("a.png", 10), ("roms/b.gbc", 20)]);
    assert_eq!(s.files.len(), 2);
    assert_eq!(s.total_bytes, 30);
    assert!(matches!(s.phase(), OutboundPhase::Waiting));
    assert!(!s.is_finished());
    assert_eq!(s.files[0].meta.file_type, "image/png");
    assert_eq!(s.files[1].meta.file_type, "application/octet-stream");
    assert_eq!(s.files[1].meta.file_name, "roms/b.gbc");
    assert_eq!(s.files[0].meta.id.len(), 16);
    assert_ne!(s.files[0].meta.id, s.files[1].meta.id);
    assert_eq!(s.done_count(), 0);
}

#[test]
fn an_empty_list_is_nothing_to_send() {
    let r = OutboundSession::prepare("Phone".to_string(), "http://x".to_string(), vec![], SendList::new());
    assert!(matches!(r, Err(SendError::NothingToSend)));
}

#[test]
fn a_refused_prepare_ends_the_send() {
    for (e, done, failed) in [
        (PrepareError::Declined, false, None),
        (PrepareError::Finished, true, None),
        (PrepareError::Busy, false, Some("peer is busy")),
        (PrepareError::PinRequired, false, Some("peer requires a PIN (not supported yet)")),
        (PrepareError::Other("boom".to_string()), false, Some("boom")),
    ] {
        let mut s = session_of(&[("a.bin", 1)]);
        assert!(matches!(s.on_prepared(Err(e)), OutboundStep::Stop));
        assert!(s.is_finished());
        match s.phase() {
            OutboundPhase::Done => assert!(done),
            OutboundPhase::Failed(m) => assert_eq!(Some(m.as_str()), failed),
            OutboundPhase::Declined => assert!(!done && failed.is_none()),
            _ => panic!("a refusal ends the send"),
        }
    }
}

#[test]
fn an_accepted_send_uploads_the_files_that_got_a_token() {
    let mut s = session_of(&[("a.bin", 1), ("b.bin", 2), ("c.bin", 3)]);
    let tokens = tokens_for(&s, &[0, 2]);
    let OutboundStep::Upload { index, token } = s.on_prepared(Ok(("sess".to_string(), tokens))) else {
        panic!("the first file got a token");
    };
    assert_eq!((index, token.as_str()), (0, "token0"));
    assert!(matches!(s.phase(), OutboundPhase::Sending));
    assert!(matches!(s.files[0].state, FileState::Receiving));

    s.add_sent(0, 1);
    let OutboundStep::Upload { index, token } = s.on_uploaded(Ok(())) else {
        panic!("the third file got a token");
    };
    assert_eq!((index, token.as_str()), (2, "token2"));
    assert!(matches!(&s.files[1].state, FileState::Failed(m) if m == "skipped by receiver"));

    s.add_sent(2, 3);
    assert_eq!(s.sent_total, 4);
    assert!(matches!(s.on_uploaded(Ok(())), OutboundStep::Stop));
    assert!(matches!(s.phase(), OutboundPhase::Done));
    assert_eq!(s.done_count(), 2);
}

#[test]
fn a_failed_upload_takes_its_bytes_back_out() {
    let mut s = session_of(&[("a.bin", 10), ("b.bin", 20)]);
    let tokens = tokens_for(&s, &[0, 1]);
    s.on_prepared(Ok(("sess".to_string(), tokens)));
    s.add_sent(0, 7);
    assert_eq!(s.sent_total, 7);
    let step = s.on_uploaded(Err("connection reset".to_string()));
    assert!(matches!(step, OutboundStep::Upload { index: 1, .. }));
    assert_eq!(s.sent_total, 0);
    assert_eq!(s.files[0].sent, 0);
    assert!(matches!(&s.files[0].state, FileState::Failed(m) if m == "connection reset"));
}

#[test]
fn a_broken_upload_is_tried_once_more() {
    let mut s = session_of(&[("a.bin", 10)]);
    let tokens = tokens_for(&s, &[0]);
    s.on_prepared(Ok(("sess".to_string(), tokens)));
    s.add_sent(0, 4);
    assert!(s.should_retry(1, false));
    assert_eq!(s.sent_total, 0, "the retry starts the file over");
    s.add_sent(0, 3);
    assert!(!s.should_retry(UPLOAD_ATTEMPTS, false), "out of attempts");
    assert_eq!(s.sent_total, 3);
    assert!(!s.should_retry(1, true), "the peer answered");
    s.cancel = true;
    assert!(!s.should_retry(1, false), "the user gave up");
}

#[test]
fn a_cancel_fails_what_is_left_and_cancels_the_session() {
    let mut s = session_of(&[("a.bin", 1), ("b.bin", 2), ("c.bin", 3)]);
    let tokens = tokens_for(&s, &[0, 1, 2]);
    s.on_prepared(Ok(("sess".to_string(), tokens)));
    s.cancel = true;
    let OutboundStep::CancelSession { session_id } = s.on_uploaded(Err("cancelled".to_string())) else {
        panic!("a cancel asks for the session's cancel");
    };
    assert_eq!(session_id, "sess");
    for f in &s.files {
        assert!(matches!(&f.state, FileState::Failed(m) if m == "cancelled"));
    }
    assert!(!s.is_finished(), "until the cancel is sent");
    s.on_cancel_sent();
    assert!(matches!(s.phase(), OutboundPhase::Cancelled));
    assert!(s.is_finished());
}

#[test]
fn a_cancel_while_the_peer_decides_cancels_at_once() {
    let mut s = session_of(&[("a.bin", 1)]);
    s.cancel = true;
    let tokens = tokens_for(&s, &[0]);
    let OutboundStep::CancelSession { session_id } = s.on_prepared(Ok(("sess".to_string(), tokens))) else {
        panic!("the user gave up while the peer was deciding");
    };
    assert_eq!(session_id, "sess");
    assert!(matches!(s.files[0].state, FileState::Pending));
}

#[test]
fn a_file_that_changed_is_reported() {
    assert!(check_unchanged(5, 5).is_ok());
    assert_eq!(
        check_unchanged(12, 10).unwrap_err(),
        "changed since it was picked: 12 bytes now, 10 announced"
    );
}

#[test]
fn a_part_file_is_found_by_the_sweep() {
    let part = retsend::files::part_path(&FsPath::parse("/s/game.gbc"), "0badf00d");
    let mut sweep = sweep_stale_parts(&FsPath::parse("/s"));
    assert_eq!(sweep.next_dir().map(|d| d.to_path_string()), Some("/s".to_string()));
    let rows = vec![
        SweepEntry { path: part.duplicate(), is_dir: Some(false), age_secs: Some(MAX_SWEEP_AGE_SECS + 1) },
        SweepEntry { path: FsPath::parse("/s/game.gbc"), is_dir: Some(false), age_secs: Some(MAX_SWEEP_AGE_SECS + 1) },
        SweepEntry { path: FsPath::parse("/s/old.part"), is_dir: Some(false), age_secs: Some(MAX_SWEEP_AGE_SECS) },
    ];
    let doomed: Vec<String> = sweep.feed(Some(rows)).iter().map(|p| p.to_path_string()).collect();
    assert_eq!(doomed, [part.to_path_string()], "a day old exactly is not yet stale");
    assert!(sweep.next_dir().is_none());
}

#[test]
fn failed_files_carry_no_bytes_and_done_files_had_tokens() {
    let mut s = session_of(&[("a.bin", 1), ("b.bin", 2), ("c.bin", 3)]);
    let tokens = tokens_for(&s, &[0, 2]);
    assert!(matches!(s.on_prepared(Ok(("sess".to_string(), tokens.clone()))), OutboundStep::Upload { index: 0, .. }));
    s.add_sent(0, 1);
    assert!(matches!(s.on_uploaded(Ok(())), OutboundStep::Upload { index: 2, .. }));
    s.add_sent(2, 2);
    assert!(matches!(s.on_uploaded(Err("reset".to_string())), OutboundStep::Stop));
    for f in &s.files {
        match &f.state {
            FileState::Failed(_) => assert_eq!(f.sent, 0),
            FileState::Done => assert!(tokens.iter().any(|(id, _)| *id == f.meta.id)),
            _ => panic!("every file has ended"),
        }
    }
    assert_eq!(s.sent_total, 1);
    assert_eq!(s.done_count(), 1);
}
