//! The gamepad file browser's state machine: directory navigation with a
//! cursor, multi-select across directories, pinned folders above every
//! listing, and a carousel of root mount points.
//!
//! Reading a directory is the app's part. Whatever the browser decides to look
//! at next it leaves as a pending load (`pending_load`); the app lists that
//! directory and hands the listing to `finish_load`, which applies it.

use vstd::prelude::*;
use crate::disk::{path_exists, path_is_dir};
use crate::files::{base_name, base_name_spec, is_inside_spec, DirEntry, PathMeta, SendList};
use crate::fspath::{
    display_spec, parent_spec, parse_spec, path_lt, path_views, starts_with_spec, FsPath, PathModel,
};
use crate::selection::{covering_index, held_by_picked_folder, picks_apart, sorted, Selection};
pub use crate::selection::Picked;
use crate::text::{chars_of, string_of, trim_whitespace, trim_ws};

verus! {

/// One row of the listing.
pub struct Entry {
    pub name: String,
    pub path: FsPath,
    pub is_dir: bool,
    /// Files only; 0 for directories.
    pub size: u64,
    /// A pinned folder or file rather than a child of the cwd. Pins are
    /// ordinary rows that happen to lead the listing.
    pub pinned: bool,
}

/// What `FileBrowser::take` did, for the toast that reports it.
pub enum Taken {
    /// A folder with its tree; `partial` when the walk left something out.
    Folder { name: String, files: usize, bytes: u64, partial: bool },
    /// The files of the folder being looked at.
    Files { files: usize, bytes: u64 },
    /// Given back; `name` is `None` when it was the files of the cwd.
    Given { name: Option<String>, files: usize },
    /// Nothing here to send.
    Nothing,
    /// A picked folder already carries this row.
    Covered { name: String },
}

/// Outcome of a `FileBrowser::toggle_pin`: the new list for the config, and
/// which path went in or out.
pub struct PinChange {
    pub paths: Vec<String>,
    /// `true` when it was pinned, `false` when it was unpinned.
    pub pinned: bool,
    pub path: FsPath,
}

#[derive(Clone, Copy, PartialEq, Eq, Debug, Structural)]
pub enum BrowserMode {
    /// Multi-select files to send.
    PickFiles,
    /// Navigate to a directory; Start chooses the cwd.
    PickDir,
}

/// What Start applies the chosen directory to (in `PickDir` only).
#[derive(Clone, Copy, PartialEq, Eq, Debug, Structural)]
pub enum DirPurpose {
    /// The save-directory setting.
    SaveDir,
    /// The destination folder of the route being added.
    Route,
    /// Where the parked incoming request should land.
    Incoming,
}

/// What follows a directory load once its listing is in.
pub enum AfterLoad {
    /// Nothing more.
    Plain,
    /// The remembered start folder: if it cannot be read, the first root
    /// is loaded instead.
    FallBack,
    /// Back from a child folder: the cursor lands on its row.
    LandOn(FsPath),
    /// A pin came or went above the cursor: the cursor moves with its row,
    /// whether or not the listing could be read again.
    KeepRow { cursor: usize, added: bool },
}

/// The browser.
pub struct FileBrowser {
    pub open: bool,
    pub mode: BrowserMode,
    pub dir_purpose: DirPurpose,
    /// Who the selection will be sent to, or whose incoming files are being
    /// given a folder.
    pub target_alias: String,
    pub cwd: FsPath,
    pub entries: Vec<Entry>,
    pub cursor: usize,
    /// Picked files and folders, surviving directory navigation.
    pub selected: Selection,
    /// The root mount points, in carousel order; B cannot leave one.
    pub roots: Vec<FsPath>,
    pub root_index: usize,
    /// Pinned paths, shown above every listing.
    pub pinned: Vec<FsPath>,
    /// The directory waiting to be listed, and what follows.
    pub pending: Option<(FsPath, AfterLoad)>,
}

/// The load a browser opens with: `start` itself, with the first root to
/// fall back on, where the disk called it a directory; else the first root;
/// else (no roots) whatever was pending before.
pub open spec fn start_pending(
    pending: Option<(FsPath, AfterLoad)>,
    start: PathModel,
    roots: Seq<PathModel>,
    before: Option<(FsPath, AfterLoad)>,
) -> bool {
    ||| pending matches Some((p, after)) && p@ == start && after is FallBack
    ||| roots.len() > 0 && (pending matches Some((p, after)) && p@ == roots[0] && after is Plain)
    ||| roots.len() == 0 && pending == before
}

/// The empty path.
pub open spec fn is_empty_path(p: PathModel) -> bool {
    !p.0 && p.1.len() == 0
}

/// How many rows lead the listing as pins.
pub open spec fn leading_pins(v: Seq<Entry>) -> nat
    decreases v.len(),
{
    if v.len() > 0 && v[0].pinned {
        1 + leading_pins(v.drop_first())
    } else {
        0
    }
}

/// The cursor after moving `delta` rows from `cursor` over `len` rows: it
/// stays on a row, and with no rows it sits at 0.
pub open spec fn moved_cursor(cursor: int, len: int, delta: int) -> int {
    if len == 0 {
        0
    } else {
        let from = if cursor < len - 1 {
            cursor
        } else {
            len - 1
        };
        let to = from + delta;
        if to < 0 {
            0
        } else if to > len - 1 {
            len - 1
        } else {
            to
        }
    }
}

/// A row as the contracts see it: name, path, directory, size, pinned.
pub type EntryModel = (Seq<char>, PathModel, bool, u64, bool);

/// The model of a row.
pub open spec fn entry_model(e: Entry) -> EntryModel {
    (e.name@, e.path@, e.is_dir, e.size, e.pinned)
}

/// The models of a listing's rows.
pub open spec fn rows(v: Seq<Entry>) -> Seq<EntryModel> {
    v.map_values(|e: Entry| entry_model(e))
}

/// A listed directory entry as a row of the folder's own.
pub open spec fn own_row(e: DirEntry) -> EntryModel {
    (e.name@, e.path@, e.is_dir, e.size, false)
}

/// The folder's own rows, in listing order.
pub open spec fn own_rows(v: Seq<DirEntry>) -> Seq<EntryModel> {
    v.map_values(|e: DirEntry| own_row(e))
}

/// What the disk said of pin `i`; nothing when the app said nothing.
pub open spec fn meta_at(metas: Seq<Option<PathMeta>>, i: int) -> Option<PathMeta> {
    if 0 <= i < metas.len() {
        metas[i]
    } else {
        None
    }
}

/// The pinned rows that lead a listing: each pin that still exists, by its
/// own name — except files while a folder is being chosen.
pub open spec fn pin_rows(pins: Seq<PathModel>, metas: Seq<Option<PathMeta>>, mode: BrowserMode) -> Seq<
    EntryModel,
>
    decreases pins.len(),
{
    if pins.len() == 0 {
        Seq::empty()
    } else {
        let rest = pin_rows(pins.drop_last(), metas, mode);
        let p = pins.last();
        match meta_at(metas, pins.len() - 1) {
            None => rest,
            Some(m) => if !m.is_dir && mode == BrowserMode::PickDir {
                rest
            } else {
                rest.push(
                    (
                        base_name_spec(p),
                        p,
                        m.is_dir,
                        if m.is_dir {
                            0u64
                        } else {
                            m.len
                        },
                        true,
                    ),
                )
            },
        }
    }
}

/// The index of the first row with path `p`, if any.
pub open spec fn row_of(v: Seq<EntryModel>, p: PathModel) -> Option<int> {
    if exists|i: int| 0 <= i < v.len() && v[i].1 == p {
        Some(choose|i: int| 0 <= i < v.len() && v[i].1 == p && forall|j: int| 0 <= j < i ==> v[j].1 != p)
    } else {
        None
    }
}

/// The cursor kept on its row after a pin came (`added`) or went above it.
pub open spec fn kept_row(cursor: int, added: bool, len: int) -> int {
    let shifted = if added {
        cursor + 1
    } else if cursor > 0 {
        cursor - 1
    } else {
        0
    };
    let last = if len > 0 {
        len - 1
    } else {
        0
    };
    if shifted < last {
        shifted
    } else {
        last
    }
}

fn copy_paths(v: &Vec<FsPath>) -> (r: Vec<FsPath>)
    ensures
        path_views(r@) == path_views(v@),
{
    let mut r: Vec<FsPath> = Vec::new();
    let mut i: usize = 0;
    while i < v.len()
        invariant
            i <= v.len(),
            path_views(r@) == path_views(v@).take(i as int),
        decreases v.len() - i,
    {
        let ghost before = r@;
        let p = v[i].duplicate();
        r.push(p);
        assert(r@.drop_last() == before);
        assert(path_views(r@) == path_views(before).push(p@));
        assert(path_views(v@).take(i + 1) == path_views(v@).take(i as int).push(v@[i as int]@));
        i += 1;
    }
    assert(path_views(v@).take(v.len() as int) == path_views(v@));
    r
}

fn index_of_path(v: &Vec<FsPath>, p: &FsPath) -> (r: Option<usize>)
    ensures
        r matches Some(i) ==> i < v.len() && v@[i as int]@ == p@ && forall|j: int|
            0 <= j < i ==> v@[j]@ != p@,
        r is None ==> forall|j: int| 0 <= j < v.len() ==> v@[j]@ != p@,
{
    let mut i: usize = 0;
    while i < v.len()
        invariant
            i <= v.len(),
            forall|j: int| 0 <= j < i ==> v@[j]@ != p@,
        decreases v.len() - i,
    {
        if v[i].same(p) {
            return Some(i);
        }
        i += 1;
    }
    None
}

fn find_row(entries: &Vec<Entry>, p: &FsPath) -> (r: Option<usize>)
    ensures
        r matches Some(i) ==> row_of(rows(entries@), p@) == Some(i as int),
        r is None ==> row_of(rows(entries@), p@) is None,
{
    let mut i: usize = 0;
    while i < entries.len()
        invariant
            i <= entries.len(),
            forall|j: int| 0 <= j < i ==> rows(entries@)[j].1 != p@,
        decreases entries.len() - i,
    {
        if entries[i].path.same(p) {
            proof {
                let v = rows(entries@);
                assert(v[i as int].1 == p@);
                let c = choose|c: int|
                    0 <= c < v.len() && v[c].1 == p@ && forall|j: int| 0 <= j < c ==> v[j].1 != p@;
                assert(c == i) by {
                    if c < i {
                    } else if c > i {
                    }
                }
            }
            return Some(i);
        }
        i += 1;
    }
    None
}

/// Mount points worth offering on handheld firmwares, in preference order;
/// only the ones that exist become roots.
pub open spec fn root_candidates() -> Seq<Seq<char>> {
    seq!["/roms"@, "/mnt/SDCARD"@, "/mnt/mmc"@, "/mnt/sdcard"@, "/userdata/roms"@, "/storage/roms"@]
}

fn root_candidate(i: usize) -> (s: &'static str)
    requires
        i < 6,
    ensures
        s@ == root_candidates()[i as int],
{
    if i == 0 {
        "/roms"
    } else if i == 1 {
        "/mnt/SDCARD"
    } else if i == 2 {
        "/mnt/mmc"
    } else if i == 3 {
        "/mnt/sdcard"
    } else if i == 4 {
        "/userdata/roms"
    } else {
        "/storage/roms"
    }
}

/// No path occurs twice.
pub open spec fn distinct(v: Seq<PathModel>) -> bool {
    forall|i: int, j: int| 0 <= i < j < v.len() ==> v[i] != v[j]
}

/// `home` earns a root of its own only outside every other one: handheld
/// launchers point it at the app folder, and a root is what B cannot leave.
pub open spec fn wants_home_root_spec(roots: Seq<PathModel>, home: PathModel) -> bool {
    forall|i: int| 0 <= i < roots.len() ==> !starts_with_spec(home, #[trigger] roots[i])
}

/// Whether `home` earns a root of its own.
pub fn wants_home_root(roots: &Vec<FsPath>, home: &FsPath) -> (r: bool)
    ensures
        r == wants_home_root_spec(path_views(roots@), home@),
{
    let mut i: usize = 0;
    while i < roots.len()
        invariant
            i <= roots.len(),
            forall|j: int| 0 <= j < i ==> !starts_with_spec(home@, #[trigger] path_views(roots@)[j]),
        decreases roots.len() - i,
    {
        if home.starts_with(&roots[i]) {
            assert(starts_with_spec(home@, path_views(roots@)[i as int]));
            return false;
        }
        i += 1;
    }
    true
}

/// Adds `p` unless it is already there.
fn push_new(v: &mut Vec<FsPath>, p: FsPath)
    requires
        distinct(path_views(old(v)@)),
    ensures
        distinct(path_views(final(v)@)),
        path_views(final(v)@) == (if path_views(old(v)@).contains(p@) {
            path_views(old(v)@)
        } else {
            path_views(old(v)@).push(p@)
        }),
{
    match index_of_path(v, &p) {
        Some(i) => {
            assert(path_views(v@)[i as int] == p@);
        },
        None => {
            let ghost before = v@;
            v.push(p);
            assert(v@.drop_last() == before);
            assert(path_views(v@) == path_views(before).push(p@));
            assert(!path_views(before).contains(p@));
        },
    }
}

/// The paths the disk said are there (the flag), each once, in order.
pub open spec fn present_once(probed: Seq<(PathModel, bool)>) -> Seq<PathModel>
    decreases probed.len(),
{
    if probed.len() == 0 {
        Seq::empty()
    } else {
        let r = present_once(probed.drop_last());
        if probed.last().1 && !r.contains(probed.last().0) {
            r.push(probed.last().0)
        } else {
            r
        }
    }
}

/// The paths a root may come from, in preference order: the mount-point
/// candidates, then the configured roots, then the environment's.
pub open spec fn root_paths(extra: Seq<String>, env_roots: Seq<String>) -> Seq<PathModel> {
    root_candidates().map_values(|c: Seq<char>| parse_spec(c)) + extra.map_values(|x: String| parse_spec(x@))
        + env_roots.map_values(|x: String| parse_spec(x@))
}

/// The roots, from which root paths are directories (`probed`) and `home`
/// when it is one: those directories each once, then `home` when it lies
/// outside every one of them, and `/` when that leaves none.
pub open spec fn roots_spec(probed: Seq<(PathModel, bool)>, home: Option<PathModel>) -> Seq<PathModel> {
    let base = present_once(probed);
    let with_home = match home {
        Some(h) => if wants_home_root_spec(base, h) {
            base.push(h)
        } else {
            base
        },
        None => base,
    };
    if with_home.len() == 0 {
        seq![parse_spec("/"@)]
    } else {
        with_home
    }
}

proof fn lemma_present_once_distinct(probed: Seq<(PathModel, bool)>)
    ensures
        distinct(present_once(probed)),
    decreases probed.len(),
{
    if probed.len() > 0 {
        lemma_present_once_distinct(probed.drop_last());
    }
}

/// `home` as a root candidate: its path when the disk said it is a directory.
pub open spec fn home_root(home: Option<&str>, home_dir: bool) -> Option<PathModel> {
    match home {
        Some(h) => if home_dir {
            Some(parse_spec(h@))
        } else {
            None
        },
        None => None,
    }
}

/// The paths that were asked about.
pub open spec fn probed_paths(probed: Seq<(PathModel, bool)>) -> Seq<PathModel> {
    probed.map_values(|x: (PathModel, bool)| x.0)
}

/// The paths of `probed` the disk said are there, each once, in order.
pub fn keep_present(probed: &Vec<(FsPath, bool)>) -> (r: Vec<FsPath>)
    ensures
        path_views(r@) == present_once(probed@.map_values(|x: (FsPath, bool)| (x.0@, x.1))),
        distinct(path_views(r@)),
{
    let ghost pv = probed@.map_values(|x: (FsPath, bool)| (x.0@, x.1));
    let mut out: Vec<FsPath> = Vec::new();
    let mut i: usize = 0;
    while i < probed.len()
        invariant
            i <= probed.len(),
            pv == probed@.map_values(|x: (FsPath, bool)| (x.0@, x.1)),
            path_views(out@) == present_once(pv.take(i as int)),
            distinct(path_views(out@)),
        decreases probed.len() - i,
    {
        assert(pv.take(i + 1).drop_last() == pv.take(i as int));
        assert(pv.take(i + 1).last() == (probed@[i as int].0@, probed@[i as int].1));
        if probed[i].1 {
            push_new(&mut out, probed[i].0.duplicate());
        }
        i += 1;
    }
    assert(pv.take(probed.len() as int) == pv);
    out
}

/// The roots from what the disk said: `probed` pairs each root path with
/// whether it is a directory, `home` is `$HOME` when it is one.
pub fn choose_roots(probed: &Vec<(FsPath, bool)>, home: Option<FsPath>) -> (r: Vec<FsPath>)
    ensures
        path_views(r@) == roots_spec(
            probed@.map_values(|x: (FsPath, bool)| (x.0@, x.1)),
            match home {
                Some(h) => Some(h@),
                None => None,
            },
        ),
        distinct(path_views(r@)),
{
    let mut roots = keep_present(probed);
    if let Some(h) = home {
        if wants_home_root(&roots, &h) {
            proof {
                assert(starts_with_spec(h@, h@)) by {
                    assert(h@.1.subrange(0, h@.1.len() as int) == h@.1);
                }
                assert(!path_views(roots@).contains(h@)) by {
                    if path_views(roots@).contains(h@) {
                        let i = choose|i: int| 0 <= i < path_views(roots@).len() && path_views(roots@)[i] == h@;
                        assert(!starts_with_spec(h@, path_views(roots@)[i]));
                    }
                }
            }
            push_new(&mut roots, h);
        }
    }
    if roots.len() == 0 {
        roots.push(FsPath::parse("/"));
        assert(path_views(roots@).len() == 1);
    }
    roots
}

/// The browser's roots: the mount-point candidates that are directories,
/// then the configured and environment roots that are directories, each
/// once, then `home` when it is a directory outside every other root; `/`
/// when none is. Which paths are directories is the disk's to say: whatever
/// it says, the roots are `roots_spec` of its answers.
pub fn build_roots(extra: &Vec<String>, env_roots: &Vec<String>, home: Option<&str>) -> (r: Vec<FsPath>)
    ensures
        exists|probed: Seq<(PathModel, bool)>, home_dir: bool| {
            &&& probed_paths(probed) == root_paths(extra@, env_roots@)
            &&& path_views(r@) == #[trigger] roots_spec(probed, home_root(home, home_dir))
        },
        r@.len() > 0,
        distinct(path_views(r@)),
{
    let mut probed: Vec<(FsPath, bool)> = Vec::new();
    let mut i: usize = 0;
    while i < 6
        invariant
            i <= 6,
            probed@.map_values(|x: (FsPath, bool)| x.0@) == root_candidates().take(i as int).map_values(
                |c: Seq<char>| parse_spec(c),
            ),
        decreases 6 - i,
    {
        let c = root_candidate(i);
        let d = path_is_dir(c);
        let ghost before = probed@;
        let q = FsPath::parse(c);
        let ghost qv = q@;
        probed.push((q, d));
        assert(probed@.drop_last() == before);
        assert(probed@.map_values(|x: (FsPath, bool)| x.0@) == before.map_values(|x: (FsPath, bool)| x.0@).push(qv));
        assert(root_candidates().take(i + 1) == root_candidates().take(i as int).push(root_candidates()[i as int]));
        i += 1;
    }
    assert(root_candidates().take(6) == root_candidates());
    let ghost lead = probed@.map_values(|x: (FsPath, bool)| x.0@);
    let mut j: usize = 0;
    while j < extra.len()
        invariant
            j <= extra.len(),
            probed@.map_values(|x: (FsPath, bool)| x.0@) == lead + extra@.take(j as int).map_values(|x: String| parse_spec(x@)),
        decreases extra.len() - j,
    {
        let d = path_is_dir(extra[j].as_str());
        let ghost before = probed@;
        let q = FsPath::parse(extra[j].as_str());
        let ghost qv = q@;
        probed.push((q, d));
        assert(probed@.drop_last() == before);
        assert(probed@.map_values(|x: (FsPath, bool)| x.0@) == before.map_values(|x: (FsPath, bool)| x.0@).push(qv));
        assert(extra@.take(j + 1) == extra@.take(j as int).push(extra@[j as int]));
        j += 1;
    }
    assert(extra@.take(extra.len() as int) == extra@);
    let ghost mid = probed@.map_values(|x: (FsPath, bool)| x.0@);
    let mut k: usize = 0;
    while k < env_roots.len()
        invariant
            k <= env_roots.len(),
            probed@.map_values(|x: (FsPath, bool)| x.0@) == mid + env_roots@.take(k as int).map_values(|x: String| parse_spec(x@)),
        decreases env_roots.len() - k,
    {
        let d = path_is_dir(env_roots[k].as_str());
        let ghost before = probed@;
        let q = FsPath::parse(env_roots[k].as_str());
        let ghost qv = q@;
        probed.push((q, d));
        assert(probed@.drop_last() == before);
        assert(probed@.map_values(|x: (FsPath, bool)| x.0@) == before.map_values(|x: (FsPath, bool)| x.0@).push(qv));
        assert(env_roots@.take(k + 1) == env_roots@.take(k as int).push(env_roots@[k as int]));
        k += 1;
    }
    assert(env_roots@.take(env_roots.len() as int) == env_roots@);
    let home_dir = match home {
        Some(h) => path_is_dir(h),
        None => false,
    };
    let home_path = match home {
        Some(h) => if home_dir {
            Some(FsPath::parse(h))
        } else {
            None
        },
        None => None,
    };
    let r = choose_roots(&probed, home_path);
    proof {
        let pv = probed@.map_values(|x: (FsPath, bool)| (x.0@, x.1));
        assert(probed_paths(pv) == root_paths(extra@, env_roots@));
        assert(path_views(r@) == roots_spec(pv, home_root(home, home_dir)));
    }
    r
}

/// Whether `p` is the path of one of the configured texts, trimmed.
pub open spec fn is_configured(p: PathModel, paths: Seq<String>) -> bool {
    exists|j: int| 0 <= j < paths.len() && p == parse_spec(trim_ws(#[trigger] paths[j]@))
}

/// The paths of configured texts, trimmed.
pub open spec fn configured_paths(paths: Seq<String>) -> Seq<PathModel> {
    paths.map_values(|x: String| parse_spec(trim_ws(x@)))
}

proof fn lemma_present_once_from(probed: Seq<(PathModel, bool)>, p: PathModel)
    requires
        present_once(probed).contains(p),
    ensures
        exists|i: int| 0 <= i < probed.len() && #[trigger] probed[i].0 == p,
    decreases probed.len(),
{
    let r = present_once(probed.drop_last());
    if r.contains(p) {
        lemma_present_once_from(probed.drop_last(), p);
        let i = choose|i: int| 0 <= i < probed.drop_last().len() && #[trigger] probed.drop_last()[i].0 == p;
        assert(probed[i].0 == p);
    } else {
        assert(probed[probed.len() - 1].0 == p);
    }
}

/// Configured pins that exist right now, folders or files, each once, order
/// kept: a pin on a removed card is skipped rather than shown as a dead row.
/// Which exist is the disk's to say: whatever it says, the pins are the
/// trimmed configured paths it called present, each once.
pub fn existing_paths(paths: &Vec<String>) -> (r: Vec<FsPath>)
    ensures
        exists|probed: Seq<(PathModel, bool)>| {
            &&& #[trigger] probed_paths(probed) == configured_paths(paths@)
            &&& path_views(r@) == present_once(probed)
        },
        distinct(path_views(r@)),
        forall|i: int| 0 <= i < r@.len() ==> is_configured(#[trigger] r@[i]@, paths@),
{
    let mut probed: Vec<(FsPath, bool)> = Vec::new();
    let mut j: usize = 0;
    while j < paths.len()
        invariant
            j <= paths.len(),
            probed@.map_values(|x: (FsPath, bool)| x.0@) == configured_paths(paths@.take(j as int)),
        decreases paths.len() - j,
    {
        let trimmed = string_of(&trim_whitespace(&chars_of(paths[j].as_str())));
        let present = path_exists(trimmed.as_str());
        let ghost before = probed@;
        let q = FsPath::parse(trimmed.as_str());
        let ghost qv = q@;
        probed.push((q, present));
        assert(probed@.drop_last() == before);
        assert(probed@.map_values(|x: (FsPath, bool)| x.0@) == before.map_values(|x: (FsPath, bool)| x.0@).push(qv));
        assert(paths@.take(j + 1) == paths@.take(j as int).push(paths@[j as int]));
        j += 1;
    }
    assert(paths@.take(paths.len() as int) == paths@);
    let r = keep_present(&probed);
    proof {
        let pv = probed@.map_values(|x: (FsPath, bool)| (x.0@, x.1));
        assert(probed_paths(pv) == configured_paths(paths@));
        assert forall|i: int| 0 <= i < r@.len() implies is_configured(#[trigger] r@[i]@, paths@) by {
            assert(path_views(r@)[i] == r@[i]@);
            lemma_present_once_from(pv, r@[i]@);
            let k = choose|k: int| 0 <= k < pv.len() && #[trigger] pv[k].0 == r@[i]@;
            assert(configured_paths(paths@)[k] == parse_spec(trim_ws(paths@[k]@)));
            assert(probed_paths(pv)[k] == pv[k].0);
        }
    }
    r
}

/// A staged path as a selection entry: a file's size, or a folder with its
/// walk (`walked`, ignored for a file). None when the path is gone or a
/// folder with nothing to send.
pub open spec fn pick_spec(meta: Option<PathMeta>, walked_files: nat, walked_bytes: u64) -> Option<Picked> {
    match meta {
        None => None,
        Some(m) => if !m.is_dir {
            Some(Picked { bytes: m.len, files: 1, is_dir: false })
        } else if walked_files == 0 {
            None
        } else {
            Some(Picked { bytes: walked_bytes, files: walked_files as usize, is_dir: true })
        },
    }
}

/// A staged path as a selection entry, from what the disk says of it and,
/// for a folder, its walk.
pub fn pick_of(meta: Option<PathMeta>, walked: &SendList) -> (r: Option<Picked>)
    ensures
        r == pick_spec(meta, walked.files@.len(), walked.bytes),
{
    match meta {
        None => None,
        Some(m) => if !m.is_dir {
            Some(Picked { bytes: m.len, files: 1, is_dir: false })
        } else if walked.files.len() == 0 {
            None
        } else {
            Some(Picked { bytes: walked.bytes, files: walked.files.len(), is_dir: true })
        },
    }
}

/// The staged picks by path, a later pick of a path replacing an earlier one.
pub open spec fn staged_map(init: Seq<(PathModel, Option<Picked>)>) -> Map<PathModel, Picked>
    decreases init.len(),
{
    if init.len() == 0 {
        Map::empty()
    } else {
        let m = staged_map(init.drop_last());
        match init.last().1 {
            Some(p) => m.insert(init.last().0, p),
            None => m,
        }
    }
}

/// No picked folder of `m` holds `k` in its tree.
pub open spec fn uncovered(m: Map<PathModel, Picked>, k: PathModel) -> bool {
    forall|d: PathModel| #[trigger] m.dom().contains(d) && m[d].is_dir ==> !is_inside_spec(d, k)
}

/// What a staged list opens as: its picks, less whatever a picked folder
/// already carries.
pub open spec fn staged_selection(init: Seq<(PathModel, Option<Picked>)>) -> Map<PathModel, Picked> {
    let m = staged_map(init);
    m.restrict(m.dom().filter(|k: PathModel| uncovered(m, k)))
}

/// A staged list opens with every pick outside every picked folder: the
/// CLI can name both a folder and something under it, and the folder
/// carries it.
pub proof fn law_staged_picks_stay_apart(init: Seq<(PathModel, Option<Picked>)>)
    ensures
        picks_apart(staged_selection(init)),
{
    let m = staged_map(init);
    let sel = staged_selection(init);
    assert forall|a: PathModel, b: PathModel|
        #![trigger sel[a], sel.dom().contains(b)]
        sel.dom().contains(a) && sel.dom().contains(b) && sel[a].is_dir implies !is_inside_spec(a, b) by {
        assert(m.dom().contains(a) && m[a] == sel[a]);
        assert(uncovered(m, b));
    }
}

/// The models of staged picks.
pub open spec fn staged_views(init: Seq<(FsPath, Option<Picked>)>) -> Seq<(PathModel, Option<Picked>)> {
    init.map_values(|x: (FsPath, Option<Picked>)| (x.0@, x.1))
}

/// The selection a staged list opens with.
fn stage(initial: &Vec<(FsPath, Option<Picked>)>) -> (sel: Selection)
    ensures
        sel@ == staged_selection(staged_views(initial@)),
{
    let ghost init = staged_views(initial@);
    let mut sel = Selection::new();
    let mut i: usize = 0;
    while i < initial.len()
        invariant
            i <= initial.len(),
            init == staged_views(initial@),
            sel@ == staged_map(init.take(i as int)),
        decreases initial.len() - i,
    {
        assert(init.take(i + 1).drop_last() == init.take(i as int));
        assert(init.take(i + 1).last() == (initial@[i as int].0@, initial@[i as int].1));
        if let Some(pick) = initial[i].1 {
            sel.insert(initial[i].0.duplicate(), pick);
        }
        i += 1;
    }
    assert(init.take(initial.len() as int) == init);
    let ghost m = sel@;
    let dirs = sel.folder_paths();
    let mut k: usize = 0;
    while k < dirs.len()
        invariant
            k <= dirs.len(),
            forall|a: int| 0 <= a < dirs@.len() ==> m.dom().contains(#[trigger] dirs@[a]@) && m[dirs@[a]@].is_dir,
            sel@ == m.restrict(m.dom().filter(|kk: PathModel| forall|a: int| 0 <= a < k ==> !is_inside_spec(#[trigger] dirs@[a]@, kk))),
        decreases dirs.len() - k,
    {
        let ghost before = sel@;
        sel.retain_outside(&dirs[k]);
        assert(sel@ =~= m.restrict(m.dom().filter(|kk: PathModel| forall|a: int| 0 <= a < k + 1 ==> !is_inside_spec(#[trigger] dirs@[a]@, kk))));
        k += 1;
    }
    proof {
        assert forall|kk: PathModel| m.dom().contains(kk) implies (forall|a: int| 0 <= a < dirs@.len() ==> !is_inside_spec(#[trigger] dirs@[a]@, kk)) == uncovered(m, kk) by {
            if uncovered(m, kk) {
                assert forall|a: int| 0 <= a < dirs@.len() implies !is_inside_spec(#[trigger] dirs@[a]@, kk) by {
                    assert(m.dom().contains(dirs@[a]@));
                }
            }
            if forall|a: int| 0 <= a < dirs@.len() ==> !is_inside_spec(#[trigger] dirs@[a]@, kk) {
                assert forall|d: PathModel| #[trigger] m.dom().contains(d) && m[d].is_dir implies !is_inside_spec(d, kk) by {
                    assert(path_views(dirs@).contains(d));
                    let a = choose|a: int| 0 <= a < path_views(dirs@).len() && path_views(dirs@)[a] == d;
                    assert(dirs@[a]@ == d);
                }
            }
        }
        assert(sel@ =~= staged_selection(init));
    }
    sel
}

/// The rows X takes from the folder being looked at: its own files, not
/// its folders and not the pins, which belong to other folders.
pub open spec fn files_here(v: Seq<Entry>) -> Seq<(PathModel, u64)>
    decreases v.len(),
{
    if v.len() == 0 {
        Seq::empty()
    } else {
        let rest = files_here(v.drop_last());
        if !v.last().is_dir && !v.last().pinned {
            rest.push((v.last().path@, v.last().size))
        } else {
            rest
        }
    }
}

/// Each path of `h` picked as a single file.
pub open spec fn pick_all(m: Map<PathModel, Picked>, h: Seq<(PathModel, u64)>) -> Map<PathModel, Picked>
    decreases h.len(),
{
    if h.len() == 0 {
        m
    } else {
        pick_all(m, h.drop_last()).insert(h.last().0, Picked { bytes: h.last().1, files: 1, is_dir: false })
    }
}

/// Each path of `h` given back.
pub open spec fn give_all(m: Map<PathModel, Picked>, h: Seq<(PathModel, u64)>) -> Map<PathModel, Picked>
    decreases h.len(),
{
    if h.len() == 0 {
        m
    } else {
        give_all(m, h.drop_last()).remove(h.last().0)
    }
}

/// The selection once folder `p` is picked with what its walk found: the
/// picks inside it go (the folder carries them now) and the folder comes in.
pub open spec fn folder_taken(sel: Map<PathModel, Picked>, p: PathModel, pick: Picked) -> Map<PathModel, Picked> {
    sel.restrict(sel.dom().filter(|k: PathModel| !is_inside_spec(p, k))).insert(p, pick)
}

/// `pins` without the first occurrence of `t`.
pub open spec fn without_first(pins: Seq<PathModel>, t: PathModel) -> Seq<PathModel> {
    pins.remove(
        choose|i: int| 0 <= i < pins.len() && pins[i] == t && forall|j: int| 0 <= j < i ==> pins[j] != t,
    )
}

/// Taking a folder and pressing X on it again gives the selection back as
/// it was, when nothing inside the folder had been picked: the second press
/// finds the folder picked and gives it back.
pub proof fn law_take_folder_then_give_back(sel: Map<PathModel, Picked>, p: PathModel, pick: Picked)
    requires
        !sel.dom().contains(p),
        forall|k: PathModel| sel.dom().contains(k) ==> !is_inside_spec(p, k),
    ensures
        folder_taken(sel, p, pick).dom().contains(p),
        folder_taken(sel, p, pick).remove(p) == sel,
{
    let kept = sel.restrict(sel.dom().filter(|k: PathModel| !is_inside_spec(p, k)));
    assert(kept =~= sel);
    assert(folder_taken(sel, p, pick).remove(p) =~= sel);
}

proof fn lemma_pick_all(sel: Map<PathModel, Picked>, h: Seq<(PathModel, u64)>)
    ensures
        forall|k: PathModel|
            #[trigger] pick_all(sel, h).dom().contains(k) <==> (sel.dom().contains(k) || exists|j: int|
                0 <= j < h.len() && h[j].0 == k),
        forall|k: PathModel|
            (forall|j: int| 0 <= j < h.len() ==> h[j].0 != k) ==> #[trigger] pick_all(sel, h)[k] == sel[k],
    decreases h.len(),
{
    if h.len() > 0 {
        let init = h.drop_last();
        lemma_pick_all(sel, init);
        let prev = pick_all(sel, init);
        let x = h.last();
        assert(pick_all(sel, h) == prev.insert(x.0, Picked { bytes: x.1, files: 1, is_dir: false }));
        assert forall|k: PathModel| #[trigger] pick_all(sel, h).dom().contains(k) <==> (sel.dom().contains(k)
            || exists|j: int| 0 <= j < h.len() && h[j].0 == k) by {
            if exists|j: int| 0 <= j < init.len() && init[j].0 == k {
                let j = choose|j: int| 0 <= j < init.len() && init[j].0 == k;
                assert(h[j].0 == k);
            }
            if exists|j: int| 0 <= j < h.len() && h[j].0 == k {
                let j = choose|j: int| 0 <= j < h.len() && h[j].0 == k;
                if j < init.len() {
                    assert(init[j].0 == k);
                } else {
                    assert(k == x.0);
                }
            }
            if k == x.0 {
                assert(h[h.len() - 1].0 == k);
            }
        }
        assert forall|k: PathModel| (forall|j: int| 0 <= j < h.len() ==> h[j].0 != k) implies #[trigger] pick_all(sel, h)[k]
            == sel[k] by {
            assert forall|j: int| 0 <= j < init.len() implies init[j].0 != k by {
                assert(init[j] == h[j]);
            }
            assert(h[h.len() - 1].0 != k);
            assert(prev[k] == sel[k]);
        }
    }
}

proof fn lemma_give_all(m: Map<PathModel, Picked>, h: Seq<(PathModel, u64)>)
    ensures
        forall|k: PathModel|
            #[trigger] give_all(m, h).dom().contains(k) <==> (m.dom().contains(k) && forall|j: int|
                0 <= j < h.len() ==> h[j].0 != k),
        forall|k: PathModel| #[trigger] give_all(m, h).dom().contains(k) ==> give_all(m, h)[k] == m[k],
    decreases h.len(),
{
    if h.len() > 0 {
        let init = h.drop_last();
        lemma_give_all(m, init);
        let prev = give_all(m, init);
        let x = h.last();
        assert(give_all(m, h) == prev.remove(x.0));
        assert forall|k: PathModel| #[trigger] give_all(m, h).dom().contains(k) <==> (m.dom().contains(k)
            && forall|j: int| 0 <= j < h.len() ==> h[j].0 != k) by {
            if give_all(m, h).dom().contains(k) {
                assert(k != x.0);
                assert forall|j: int| 0 <= j < h.len() implies h[j].0 != k by {
                    if j < init.len() {
                        assert(init[j] == h[j]);
                    }
                }
            }
            if m.dom().contains(k) && forall|j: int| 0 <= j < h.len() ==> h[j].0 != k {
                assert forall|j: int| 0 <= j < init.len() implies init[j].0 != k by {
                    assert(init[j] == h[j]);
                }
                assert(h[h.len() - 1].0 != k);
            }
        }
        assert forall|k: PathModel| #[trigger] give_all(m, h).dom().contains(k) implies give_all(m, h)[k] == m[k] by {
            assert(prev.dom().contains(k));
        }
    }
}

/// Taking the files of a folder none of which was picked, then pressing X
/// again, gives the selection back as it was: the first press picks every
/// one of them, so the second finds them all picked and gives them back.
pub proof fn law_take_files_then_give_back(sel: Map<PathModel, Picked>, h: Seq<(PathModel, u64)>)
    requires
        forall|j: int| 0 <= j < h.len() ==> !sel.dom().contains(#[trigger] h[j].0),
    ensures
        forall|j: int| 0 <= j < h.len() ==> pick_all(sel, h).dom().contains(#[trigger] h[j].0),
        give_all(pick_all(sel, h), h) == sel,
{
    lemma_pick_all(sel, h);
    let m = pick_all(sel, h);
    lemma_give_all(m, h);
    assert forall|j: int| 0 <= j < h.len() implies pick_all(sel, h).dom().contains(#[trigger] h[j].0) by {
        assert(exists|i: int| 0 <= i < h.len() && h[i].0 == h[j].0);
    }
    assert forall|k: PathModel| #[trigger] give_all(m, h).dom().contains(k) <==> sel.dom().contains(k) by {
        if sel.dom().contains(k) {
            assert forall|j: int| 0 <= j < h.len() implies h[j].0 != k by {
                assert(!sel.dom().contains(h[j].0));
            }
        }
    }
    assert(give_all(m, h) =~= sel);
}

/// Picking a file no picked folder holds, or giving a pick back, keeps
/// every pick outside every picked folder.
pub proof fn law_file_picks_stay_apart(sel: Map<PathModel, Picked>, p: PathModel, pick: Picked)
    requires
        picks_apart(sel),
        !pick.is_dir,
    ensures
        !held_by_picked_folder(sel, p) ==> picks_apart(sel.insert(p, pick)),
        picks_apart(sel.remove(p)),
{
    if !held_by_picked_folder(sel, p) {
        let m = sel.insert(p, pick);
        assert forall|a: PathModel, b: PathModel|
            #![trigger m[a], m.dom().contains(b)]
            m.dom().contains(a) && m.dom().contains(b) && m[a].is_dir implies !is_inside_spec(a, b) by {
            assert(a != p);
            assert(sel[a] == m[a]);
            if b == p {
                assert(!(sel.dom().contains(a) && sel[a].is_dir && is_inside_spec(a, p)));
            } else {
                assert(sel.dom().contains(b));
            }
        }
    }
    let m = sel.remove(p);
    assert forall|a: PathModel, b: PathModel|
        #![trigger m[a], m.dom().contains(b)]
        m.dom().contains(a) && m.dom().contains(b) && m[a].is_dir implies !is_inside_spec(a, b) by {
        assert(sel[a] == m[a]);
        assert(sel.dom().contains(b));
    }
}

/// Picking a folder no picked folder holds keeps every pick outside every
/// picked folder: what it already held goes, the folder carrying it now.
pub proof fn law_folder_picks_stay_apart(sel: Map<PathModel, Picked>, p: PathModel, pick: Picked)
    requires
        picks_apart(sel),
        !held_by_picked_folder(sel, p),
    ensures
        picks_apart(folder_taken(sel, p, pick)),
{
    let m = folder_taken(sel, p, pick);
    let kept = sel.restrict(sel.dom().filter(|k: PathModel| !is_inside_spec(p, k)));
    assert forall|a: PathModel, b: PathModel|
        #![trigger m[a], m.dom().contains(b)]
        m.dom().contains(a) && m.dom().contains(b) && m[a].is_dir implies !is_inside_spec(a, b) by {
        if a == p {
            if b != p {
                assert(kept.dom().contains(b));
            }
        } else {
            assert(kept.dom().contains(a));
            assert(m[a] == sel[a]);
            if b == p {
                assert(!(sel.dom().contains(a) && sel[a].is_dir && is_inside_spec(a, p)));
            } else {
                assert(kept.dom().contains(b));
            }
        }
    }
}

/// Picking the files of a folder, none of which a picked folder holds, or
/// giving them back, keeps every pick outside every picked folder.
pub proof fn law_files_here_stay_apart(sel: Map<PathModel, Picked>, h: Seq<(PathModel, u64)>)
    requires
        picks_apart(sel),
    ensures
        (forall|j: int| 0 <= j < h.len() ==> !held_by_picked_folder(sel, #[trigger] h[j].0)) ==> picks_apart(
            pick_all(sel, h),
        ),
        picks_apart(give_all(sel, h)),
    decreases h.len(),
{
    if h.len() > 0 {
        let init = h.drop_last();
        law_files_here_stay_apart(sel, init);
        let x = h.last();
        if forall|j: int| 0 <= j < h.len() ==> !held_by_picked_folder(sel, #[trigger] h[j].0) {
            assert forall|j: int| 0 <= j < init.len() implies !held_by_picked_folder(sel, #[trigger] init[j].0) by {
                assert(init[j] == h[j]);
            }
            let prev = pick_all(sel, init);
            lemma_pick_all(sel, init);
            assert(!held_by_picked_folder(sel, h[h.len() - 1].0));
            assert(!held_by_picked_folder(prev, x.0)) by {
                if held_by_picked_folder(prev, x.0) {
                    let k = choose|k: PathModel| prev.dom().contains(k) && prev[k].is_dir && is_inside_spec(k, x.0);
                    if forall|j: int| 0 <= j < init.len() ==> init[j].0 != k {
                        assert(prev[k] == sel[k]);
                        assert(sel.dom().contains(k));
                    } else {
                        let j = choose|j: int| 0 <= j < init.len() && init[j].0 == k;
                        lemma_pick_all_files(sel, init, j);
                    }
                }
            }
            law_file_picks_stay_apart(prev, x.0, Picked { bytes: x.1, files: 1, is_dir: false });
        }
        let prev = give_all(sel, init);
        law_file_picks_stay_apart(prev, x.0, Picked { bytes: x.1, files: 1, is_dir: false });
    }
}

proof fn lemma_pick_all_files(sel: Map<PathModel, Picked>, h: Seq<(PathModel, u64)>, j: int)
    requires
        0 <= j < h.len(),
    ensures
        !pick_all(sel, h)[h[j].0].is_dir,
    decreases h.len(),
{
    if j < h.len() - 1 {
        if h.last().0 != h[j].0 {
            lemma_pick_all_files(sel, h.drop_last(), j);
            assert(h.drop_last()[j] == h[j]);
        }
    }
}

/// Pinning a path and toggling it again leaves the pins as they were.
pub proof fn law_pin_then_unpin_restores(pins: Seq<PathModel>, t: PathModel)
    requires
        !pins.contains(t),
    ensures
        pins.push(t).contains(t),
        without_first(pins.push(t), t) == pins,
{
    let q = pins.push(t);
    assert(q[pins.len() as int] == t);
    let i = choose|i: int| 0 <= i < q.len() && q[i] == t && forall|j: int| 0 <= j < i ==> q[j] != t;
    assert(i == pins.len()) by {
        if i < pins.len() {
            assert(pins[i] == t);
        }
    }
    assert(q.remove(i) =~= pins);
}

/// The sizes of `h` added up, to the limit of `u64`.
pub open spec fn sizes(h: Seq<(PathModel, u64)>) -> u64
    decreases h.len(),
{
    if h.len() == 0 {
        0
    } else {
        let s = sizes(h.drop_last()) + h.last().1;
        if s <= u64::MAX {
            s as u64
        } else {
            u64::MAX
        }
    }
}

/// The message for a row a picked folder already carries.
pub open spec fn already_in(folder: PathModel) -> Seq<char> {
    "Already in "@ + base_name_spec(folder)
}

fn keep_row(cursor: usize, added: bool, len: usize) -> (r: usize)
    ensures
        r == kept_row(cursor as int, added, len as int),
{
    let shifted = if added {
        cursor.saturating_add(1)
    } else {
        cursor.saturating_sub(1)
    };
    let last = if len > 0 {
        len - 1
    } else {
        0
    };
    if shifted < last {
        shifted
    } else {
        last
    }
}

impl FileBrowser {
    /// Closed, empty, in file-picking mode.
    pub fn new() -> (b: FileBrowser)
        ensures
            !b.open,
            b.mode == BrowserMode::PickFiles,
            b.dir_purpose == DirPurpose::SaveDir,
            b.target_alias@.len() == 0,
            is_empty_path(b.cwd@),
            b.entries@.len() == 0,
            b.cursor == 0,
            b.selected@ == Map::<PathModel, Picked>::empty(),
            b.roots_view().len() == 0,
            b.root_index == 0,
            b.pinned_view().len() == 0,
            b.pending_view() is None,
    {
        FileBrowser {
            open: false,
            mode: BrowserMode::PickFiles,
            dir_purpose: DirPurpose::SaveDir,
            target_alias: String::new(),
            cwd: FsPath::empty(),
            entries: Vec::new(),
            cursor: 0,
            selected: Selection::new(),
            roots: Vec::new(),
            root_index: 0,
            pinned: Vec::new(),
            pending: None,
        }
    }

    /// The roots, in carousel order.
    pub open spec fn roots_view(&self) -> Seq<PathModel> {
        path_views(self.roots@)
    }

    /// The pinned paths, in the order they were pinned.
    pub open spec fn pinned_view(&self) -> Seq<PathModel> {
        path_views(self.pinned@)
    }

    /// Which root the carousel stands on.
    pub open spec fn root_index_view(&self) -> nat {
        self.root_index as nat
    }

    /// The directory waiting to be listed.
    pub open spec fn pending_view(&self) -> Option<PathModel> {
        match self.pending {
            Some(p) => Some(p.0@),
            None => None,
        }
    }

    /// The directory waiting to be listed, if any: the app lists it and hands
    /// the listing to `finish_load`.
    pub fn pending_load(&self) -> (r: Option<FsPath>)
        ensures
            match r {
                Some(p) => self.pending_view() == Some(p@),
                None => self.pending_view() is None,
            },
    {
        match &self.pending {
            Some(p) => Some(p.0.duplicate()),
            None => None,
        }
    }

    /// The pinned paths, in the order they were pinned: the app reads their
    /// metadata for `finish_load`.
    pub fn pinned_paths(&self) -> (r: Vec<FsPath>)
        ensures
            path_views(r@) == self.pinned_view(),
    {
        copy_paths(&self.pinned)
    }

    /// The roots, in carousel order.
    pub fn roots(&self) -> (r: Vec<FsPath>)
        ensures
            path_views(r@) == self.roots_view(),
    {
        copy_paths(&self.roots)
    }

    fn request_load(&mut self, dir: FsPath, after: AfterLoad)
        ensures
            final(self).pending_view() == Some(dir@),
            final(self).pending == Some((dir, after)),
            final(self).open == old(self).open,
            final(self).mode == old(self).mode,
            final(self).dir_purpose == old(self).dir_purpose,
            final(self).target_alias == old(self).target_alias,
            final(self).cwd == old(self).cwd,
            final(self).entries == old(self).entries,
            final(self).cursor == old(self).cursor,
            final(self).selected == old(self).selected,
            final(self).roots_view() == old(self).roots_view(),
            final(self).root_index_view() == old(self).root_index_view(),
            final(self).pinned_view() == old(self).pinned_view(),
    {
        self.pending = Some((dir, after));
    }

    /// Goes to `dir`: its listing is left pending, and `finish_load` makes
    /// it the cwd with the cursor at the top (or reports why it could not be
    /// read).
    pub fn change_dir(&mut self, dir: FsPath)
        ensures
            final(self).pending_view() == Some(dir@),
            final(self).pending matches Some((_, after)) && after is Plain,
            final(self).open == old(self).open,
            final(self).mode == old(self).mode,
            final(self).dir_purpose == old(self).dir_purpose,
            final(self).target_alias == old(self).target_alias,
            final(self).cwd == old(self).cwd,
            final(self).entries == old(self).entries,
            final(self).cursor == old(self).cursor,
            final(self).selected == old(self).selected,
            final(self).roots_view() == old(self).roots_view(),
            final(self).root_index_view() == old(self).root_index_view(),
            final(self).pinned_view() == old(self).pinned_view(),
            final(self).root_index == old(self).root_index,
    {
        self.request_load(dir, AfterLoad::Plain);
    }

    /// The pinned rows, from what the disk says of each pin.
    fn pinned_entries(&self, metas: &Vec<Option<PathMeta>>) -> (r: Vec<Entry>)
        ensures
            rows(r@) == pin_rows(self.pinned_view(), metas@, self.mode),
    {
        let mut r: Vec<Entry> = Vec::new();
        let mut i: usize = 0;
        while i < self.pinned.len()
            invariant
                i <= self.pinned.len(),
                rows(r@) == pin_rows(self.pinned_view().take(i as int), metas@, self.mode),
            decreases self.pinned.len() - i,
        {
            let ghost pv = self.pinned_view().take(i + 1);
            assert(pv.drop_last() == self.pinned_view().take(i as int));
            assert(pv.last() == self.pinned@[i as int]@);
            let meta = if i < metas.len() {
                metas[i]
            } else {
                None
            };
            assert(meta == meta_at(metas@, pv.len() - 1));
            if let Some(m) = meta {
                if m.is_dir || self.mode != BrowserMode::PickDir {
                    let path = &self.pinned[i];
                    let e = Entry {
                        name: base_name(path),
                        path: path.duplicate(),
                        is_dir: m.is_dir,
                        size: if m.is_dir {
                            0
                        } else {
                            m.len
                        },
                        pinned: true,
                    };
                    let ghost before = r@;
                    r.push(e);
                    assert(r@.drop_last() == before);
                    assert(rows(r@) == rows(before).push(entry_model(e)));
                }
            }
            i += 1;
        }
        assert(self.pinned_view().take(self.pinned.len() as int) == self.pinned_view());
        r
    }

    /// The listing of a loaded folder: its pins, then its own rows.
    fn listing_rows(&self, metas: &Vec<Option<PathMeta>>, own: &Vec<DirEntry>) -> (r: Vec<Entry>)
        ensures
            rows(r@) == pin_rows(self.pinned_view(), metas@, self.mode) + own_rows(own@),
    {
        let mut r = self.pinned_entries(metas);
        let ghost pins = rows(r@);
        let mut i: usize = 0;
        while i < own.len()
            invariant
                i <= own.len(),
                rows(r@) == pins + own_rows(own@.take(i as int)),
            decreases own.len() - i,
        {
            let e = &own[i];
            let ghost before = r@;
            let row = Entry {
                name: e.name.clone(),
                path: e.path.duplicate(),
                is_dir: e.is_dir,
                size: e.size,
                pinned: false,
            };
            r.push(row);
            assert(r@.drop_last() == before);
            assert(rows(r@) == rows(before).push(entry_model(row)));
            assert(own@.take(i + 1) == own@.take(i as int).push(own@[i as int]));
            i += 1;
        }
        assert(own@.take(own.len() as int) == own@);
        r
    }

    /// Applies the listing of the pending directory: `listing` is its own
    /// rows (or why it could not be read) and `metas` what the disk says of
    /// each pinned path, in order. On success the pending directory becomes
    /// the cwd, its pins lead its rows and the cursor goes to the top — or
    /// onto the folder just left, after B. A failed load changes nothing but
    /// reports `<dir>: <error>`; the remembered start folder failing loads the
    /// first root instead. After a pin was toggled, the cursor moves with its
    /// row either way. With nothing pending, nothing happens.
    pub fn finish_load(&mut self, listing: Result<Vec<DirEntry>, String>, metas: &Vec<Option<PathMeta>>) -> (r: Result<(), String>)
        ensures
            final(self).open == old(self).open,
            final(self).mode == old(self).mode,
            final(self).selected == old(self).selected,
            final(self).pinned_view() == old(self).pinned_view(),
            final(self).roots_view() == old(self).roots_view(),
            final(self).root_index == old(self).root_index,
            match old(self).pending {
                None => r is Ok && final(self).cwd == old(self).cwd && final(self).entries == old(self).entries
                    && final(self).cursor == old(self).cursor && final(self).pending_view() is None,
                Some((dir, after)) => match listing {
                    Ok(own) => {
                        let loaded = pin_rows(old(self).pinned_view(), metas@, old(self).mode) + own_rows(own@);
                        &&& r is Ok
                        &&& final(self).cwd@ == dir@
                        &&& rows(final(self).entries@) == loaded
                        &&& final(self).pending_view() is None
                        &&& final(self).cursor == match after {
                            AfterLoad::LandOn(from) => match row_of(loaded, from@) {
                                Some(i) => i,
                                None => 0,
                            },
                            AfterLoad::KeepRow { cursor, added } => kept_row(cursor as int, added, loaded.len() as int),
                            _ => 0,
                        }
                    },
                    Err(e) => {
                        &&& r matches Err(m) && m@ == display_spec(dir@) + seq![':', ' '] + e@
                        &&& final(self).cwd == old(self).cwd
                        &&& final(self).entries == old(self).entries
                        &&& final(self).cursor == match after {
                            AfterLoad::KeepRow { cursor, added } => kept_row(cursor as int, added, old(self).entries@.len() as int),
                            _ => old(self).cursor as int,
                        }
                        &&& final(self).pending_view() == match after {
                            AfterLoad::FallBack => if old(self).roots_view().len() > 0 {
                                Some(old(self).roots_view()[0])
                            } else {
                                None
                            },
                            _ => None,
                        }
                    },
                },
            },
            final(self).dir_purpose == old(self).dir_purpose,
            final(self).target_alias == old(self).target_alias,
    {
        let mut pending: Option<(FsPath, AfterLoad)> = None;
        std::mem::swap(&mut pending, &mut self.pending);
        let (dir, after) = match pending {
            Some(p) => p,
            None => return Ok(()),
        };
        match listing {
            Ok(own) => {
                let entries = self.listing_rows(metas, &own);
                self.cwd = dir;
                self.entries = entries;
                self.cursor = 0;
                match after {
                    AfterLoad::LandOn(from) => {
                        if let Some(i) = find_row(&self.entries, &from) {
                            self.cursor = i;
                        }
                    },
                    AfterLoad::KeepRow { cursor, added } => {
                        self.cursor = keep_row(cursor, added, self.entries.len());
                    },
                    _ => {},
                }
                Ok(())
            },
            Err(e) => {
                let mut m = dir.to_path_string();
                m.push(':');
                m.push(' ');
                m.append(e.as_str());
                match after {
                    AfterLoad::FallBack => {
                        if self.roots.len() > 0 {
                            let root = self.roots[0].duplicate();
                            self.pending = Some((root, AfterLoad::Plain));
                        }
                    },
                    AfterLoad::KeepRow { cursor, added } => {
                        self.cursor = keep_row(cursor, added, self.entries.len());
                    },
                    _ => {},
                }
                Err(m)
            },
        }
    }

    /// Leaves the start listing pending, given whether `start` is a
    /// directory: a directory is loaded with the first root to fall back on
    /// should its listing fail; anything else sends the browser to the first
    /// root at once (and, with no roots, nothing is requested).
    pub fn start_load(&mut self, start: &FsPath, start_is_dir: bool)
        ensures
            start_is_dir ==> (final(self).pending matches Some((p, after)) && p@ == start@ && after is FallBack),
            !start_is_dir && old(self).roots_view().len() > 0 ==> (final(self).pending matches Some((p, after))
                && p@ == old(self).roots_view()[0] && after is Plain),
            !start_is_dir && old(self).roots_view().len() == 0 ==> final(self).pending == old(self).pending,
            final(self).open == old(self).open,
            final(self).mode == old(self).mode,
            final(self).dir_purpose == old(self).dir_purpose,
            final(self).target_alias == old(self).target_alias,
            final(self).cwd == old(self).cwd,
            final(self).entries == old(self).entries,
            final(self).cursor == old(self).cursor,
            final(self).selected == old(self).selected,
            final(self).roots_view() == old(self).roots_view(),
            final(self).root_index == old(self).root_index,
            final(self).pinned_view() == old(self).pinned_view(),
    {
        if start_is_dir {
            self.request_load(start.duplicate(), AfterLoad::FallBack);
            return;
        }
        if self.roots.len() > 0 {
            let root = self.roots[0].duplicate();
            self.request_load(root, AfterLoad::Plain);
        }
    }

    /// Lands in `start`, falling back to the first root when it is no
    /// directory (or cannot be read): a remembered folder can live on a card
    /// that is no longer in the slot.
    fn start_at(&mut self, start: &FsPath)
        ensures
            start_pending(final(self).pending, start@, old(self).roots_view(), old(self).pending),
            final(self).open == old(self).open,
            final(self).mode == old(self).mode,
            final(self).dir_purpose == old(self).dir_purpose,
            final(self).target_alias == old(self).target_alias,
            final(self).cwd == old(self).cwd,
            final(self).entries == old(self).entries,
            final(self).cursor == old(self).cursor,
            final(self).selected == old(self).selected,
            final(self).roots_view() == old(self).roots_view(),
            final(self).root_index == old(self).root_index,
            final(self).pinned_view() == old(self).pinned_view(),
    {
        let text = start.to_path_string();
        let is_dir = path_is_dir(text.as_str());
        self.start_load(start, is_dir);
    }

    /// Opens for picking files to send to `target_alias`. The roots come from
    /// the configured (`extra_roots`) and environment roots and `home`; the
    /// pins are the configured paths that exist; `initial` is the staged list,
    /// each path with its pick (see `pick_of`), a folder carrying whatever
    /// else staged lies in its tree; `start` is where the last send began.
    pub fn open_for_send(
        &mut self,
        target_alias: &str,
        extra_roots: &Vec<String>,
        env_roots: &Vec<String>,
        home: Option<&str>,
        pinned_paths: &Vec<String>,
        initial: &Vec<(FsPath, Option<Picked>)>,
        start: &FsPath,
    )
        ensures
            final(self).open,
            final(self).mode == BrowserMode::PickFiles,
            final(self).target_alias@ == target_alias@,
            final(self).cursor == 0,
            final(self).root_index == 0,
            final(self).selected@ == staged_selection(staged_views(initial@)),
            exists|probed: Seq<(PathModel, bool)>, home_dir: bool| {
                &&& probed_paths(probed) == root_paths(extra_roots@, env_roots@)
                &&& final(self).roots_view() == #[trigger] roots_spec(probed, home_root(home, home_dir))
            },
            exists|probed: Seq<(PathModel, bool)>| {
                &&& #[trigger] probed_paths(probed) == configured_paths(pinned_paths@)
                &&& final(self).pinned_view() == present_once(probed)
            },
            final(self).roots_view().len() > 0,
            distinct(final(self).roots_view()),
            distinct(final(self).pinned_view()),
            forall|i: int| 0 <= i < final(self).pinned_view().len() ==> is_configured(#[trigger] final(self).pinned_view()[i], pinned_paths@),
            start_pending(final(self).pending, start@, final(self).roots_view(), old(self).pending),
            final(self).dir_purpose == old(self).dir_purpose,
    {
        self.mode = BrowserMode::PickFiles;
        self.target_alias = string_of(&chars_of(target_alias));
        self.roots = build_roots(extra_roots, env_roots, home);
        self.pinned = existing_paths(pinned_paths);
        self.root_index = 0;
        self.selected = stage(initial);
        self.cursor = 0;
        self.open = true;
        self.start_at(start);
    }

    /// Opens to choose a directory, starting at `start` when it exists.
    /// `purpose` decides what Start does with the folder landed on; `about`
    /// names the peer for the header, empty when the pick is about no one.
    pub fn open_for_dir(
        &mut self,
        start: &FsPath,
        extra_roots: &Vec<String>,
        env_roots: &Vec<String>,
        home: Option<&str>,
        pinned_paths: &Vec<String>,
        purpose: DirPurpose,
        about: &str,
    )
        ensures
            final(self).open,
            final(self).mode == BrowserMode::PickDir,
            final(self).dir_purpose == purpose,
            final(self).target_alias@ == about@,
            final(self).cursor == 0,
            final(self).root_index == 0,
            final(self).selected@ == Map::<PathModel, Picked>::empty(),
            exists|probed: Seq<(PathModel, bool)>, home_dir: bool| {
                &&& probed_paths(probed) == root_paths(extra_roots@, env_roots@)
                &&& final(self).roots_view() == #[trigger] roots_spec(probed, home_root(home, home_dir))
            },
            exists|probed: Seq<(PathModel, bool)>| {
                &&& #[trigger] probed_paths(probed) == configured_paths(pinned_paths@)
                &&& final(self).pinned_view() == present_once(probed)
            },
            final(self).roots_view().len() > 0,
            distinct(final(self).roots_view()),
            distinct(final(self).pinned_view()),
            forall|i: int| 0 <= i < final(self).pinned_view().len() ==> is_configured(#[trigger] final(self).pinned_view()[i], pinned_paths@),
            start_pending(final(self).pending, start@, final(self).roots_view(), old(self).pending),
    {
        self.mode = BrowserMode::PickDir;
        self.dir_purpose = purpose;
        self.target_alias = string_of(&chars_of(about));
        self.roots = build_roots(extra_roots, env_roots, home);
        self.pinned = existing_paths(pinned_paths);
        self.root_index = 0;
        self.selected = Selection::new();
        self.cursor = 0;
        self.open = true;
        self.start_at(start);
    }

    /// A on the cursor row: a directory is entered (its listing left pending),
    /// a file's pick toggled. A file a picked folder already carries is not
    /// pickable on its own: the error names that folder. While a folder is
    /// being chosen, files do nothing.
    pub fn activate(&mut self) -> (r: Result<(), String>)
        ensures
            final(self).open == old(self).open,
            final(self).mode == old(self).mode,
            final(self).cwd == old(self).cwd,
            final(self).entries == old(self).entries,
            final(self).cursor == old(self).cursor,
            final(self).roots_view() == old(self).roots_view(),
            final(self).pinned_view() == old(self).pinned_view(),
            sorted(old(self).selected.entries_view()),
            picks_apart(old(self).selected@) ==> picks_apart(final(self).selected@),
            old(self).cursor >= old(self).entries@.len() ==> r is Ok && final(self).selected@ == old(self).selected@
                && final(self).pending_view() == old(self).pending_view(),
            old(self).cursor < old(self).entries@.len() ==> ({
                let e = old(self).entries@[old(self).cursor as int];
                let sel = old(self).selected@;
                if e.is_dir {
                    &&& r is Ok
                    &&& final(self).selected@ == sel
                    &&& final(self).pending_view() == Some(e.path@)
                    &&& final(self).pending matches Some((_, after)) && after is Plain
                } else if old(self).mode != BrowserMode::PickFiles {
                    r is Ok && final(self).selected@ == sel && final(self).pending_view() == old(self).pending_view()
                } else if sel.dom().contains(e.path@) {
                    r is Ok && final(self).selected@ == sel.remove(e.path@) && final(self).pending_view() == old(self).pending_view()
                } else {
                    &&& final(self).pending_view() == old(self).pending_view()
                    &&& match covering_index(old(self).selected.entries_view(), e.path@) {
                        Some(i) => r matches Err(m) && m@ == already_in(old(self).selected.entries_view()[i].0)
                            && final(self).selected@ == sel,
                        None => r is Ok && final(self).selected@ == sel.insert(e.path@, Picked { bytes: e.size, files: 1, is_dir: false }),
                    }
                }
            }),
            final(self).root_index == old(self).root_index,
            final(self).dir_purpose == old(self).dir_purpose,
            final(self).target_alias == old(self).target_alias,
    {
        proof {
            use_type_invariant(&self.selected);
        }
        if self.cursor >= self.entries.len() {
            return Ok(());
        }
        let c = self.cursor;
        if self.entries[c].is_dir {
            let dir = self.entries[c].path.duplicate();
            self.request_load(dir, AfterLoad::Plain);
            return Ok(());
        }
        if self.mode != BrowserMode::PickFiles {
            return Ok(());
        }
        let path = self.entries[c].path.duplicate();
        let size = self.entries[c].size;
        let ghost sel = self.selected@;
        proof {
            if picks_apart(sel) {
                law_file_picks_stay_apart(sel, path@, Picked { bytes: size, files: 1, is_dir: false });
            }
        }
        if self.selected.remove(&path).is_some() {
            return Ok(());
        }
        if let Some(folder) = self.covered_by(&path) {
            let mut m = String::new();
            m.append("Already in ");
            m.append(base_name(&folder).as_str());
            return Err(m);
        }
        self.selected.insert(path, Picked { bytes: size, files: 1, is_dir: false });
        Ok(())
    }

    /// B: goes to the parent directory (its listing left pending, the cursor
    /// to land on the folder left). `false` at a root or where there is no
    /// parent: the caller closes the browser.
    pub fn parent(&mut self) -> (r: bool)
        ensures
            r == (!old(self).roots_view().contains(old(self).cwd@) && parent_spec(old(self).cwd@) is Some),
            r ==> final(self).pending_view() == parent_spec(old(self).cwd@),
            r ==> (final(self).pending matches Some((_, AfterLoad::LandOn(from))) && from@ == old(self).cwd@),
            !r ==> final(self).pending_view() == old(self).pending_view(),
            final(self).open == old(self).open,
            final(self).mode == old(self).mode,
            final(self).cwd == old(self).cwd,
            final(self).entries == old(self).entries,
            final(self).cursor == old(self).cursor,
            final(self).selected == old(self).selected,
            final(self).roots_view() == old(self).roots_view(),
            final(self).pinned_view() == old(self).pinned_view(),
            final(self).root_index == old(self).root_index,
            final(self).dir_purpose == old(self).dir_purpose,
            final(self).target_alias == old(self).target_alias,
    {
        match index_of_path(&self.roots, &self.cwd) {
            Some(i) => {
                assert(self.roots_view()[i as int] == self.cwd@);
                return false;
            },
            None => {},
        }
        let parent = match self.cwd.parent() {
            Some(p) => p,
            None => return false,
        };
        let came_from = self.cwd.duplicate();
        self.request_load(parent, AfterLoad::LandOn(came_from));
        true
    }

    /// Select: moves the carousel to the next root and leaves its listing
    /// pending. `None` when there are no roots.
    pub fn cycle_root(&mut self) -> (r: Option<FsPath>)
        ensures
            old(self).roots_view().len() == 0 ==> r is None && final(self).root_index == old(self).root_index
                && final(self).pending_view() == old(self).pending_view(),
            old(self).roots_view().len() > 0 ==> {
                let n = old(self).roots_view().len();
                &&& final(self).root_index == (old(self).root_index + 1) % (n as int)
                &&& r matches Some(p) && p@ == old(self).roots_view()[final(self).root_index as int]
                &&& final(self).pending_view() == Some(old(self).roots_view()[final(self).root_index as int])
                &&& final(self).pending matches Some((_, after)) && after is Plain
            },
            final(self).open == old(self).open,
            final(self).mode == old(self).mode,
            final(self).cwd == old(self).cwd,
            final(self).entries == old(self).entries,
            final(self).cursor == old(self).cursor,
            final(self).selected == old(self).selected,
            final(self).roots_view() == old(self).roots_view(),
            final(self).pinned_view() == old(self).pinned_view(),
            final(self).dir_purpose == old(self).dir_purpose,
            final(self).target_alias == old(self).target_alias,
    {
        let n = self.roots.len();
        if n == 0 {
            return None;
        }
        let next = if n == 1 {
            0
        } else {
            ((self.root_index % n) + 1) % n
        };
        proof {
            vstd::arithmetic::div_mod::lemma_add_mod_noop(self.root_index as int, 1, n as int);
            if n > 1 {
                vstd::arithmetic::div_mod::lemma_small_mod(1, n as nat);
            }
        }
        assert(next == (self.root_index + 1) % (n as int));
        self.root_index = next;
        let root = self.roots[next].duplicate();
        let shown = self.roots[next].duplicate();
        self.request_load(root, AfterLoad::Plain);
        Some(shown)
    }

    /// The folder X would walk: the folder row under the cursor, when it is
    /// neither picked already nor carried by a picked folder. The app walks
    /// it and hands the walk to `take`.
    pub fn take_target(&self) -> (r: Option<FsPath>)
        ensures
            match r {
                Some(p) => {
                    &&& self.mode == BrowserMode::PickFiles
                    &&& self.cursor < self.entries@.len()
                    &&& self.entries@[self.cursor as int].is_dir
                    &&& p@ == self.entries@[self.cursor as int].path@
                    &&& !self.selected@.dom().contains(p@)
                    &&& covering_index(self.selected.entries_view(), p@) is None
                },
                None => !(self.mode == BrowserMode::PickFiles && self.cursor < self.entries@.len()
                    && self.entries@[self.cursor as int].is_dir && !self.selected@.dom().contains(
                    self.entries@[self.cursor as int].path@,
                ) && covering_index(self.selected.entries_view(), self.entries@[self.cursor as int].path@) is None),
            },
    {
        if self.mode != BrowserMode::PickFiles || !self.cursor_is_dir() {
            return None;
        }
        let path = &self.entries[self.cursor].path;
        if self.selected.contains(path) {
            return None;
        }
        if self.covered_by(path).is_some() {
            return None;
        }
        Some(path.duplicate())
    }

    /// X: the folder under the cursor with its whole tree (`walked`, the walk
    /// of `take_target`), or — anywhere else — every file of the folder being
    /// looked at. Pressing it again gives back what it took. `None` while a
    /// folder is being chosen.
    pub fn take(&mut self, walked: &SendList) -> (r: Option<Taken>)
        ensures
            final(self).open == old(self).open,
            final(self).mode == old(self).mode,
            final(self).cwd == old(self).cwd,
            final(self).entries == old(self).entries,
            final(self).cursor == old(self).cursor,
            final(self).roots_view() == old(self).roots_view(),
            final(self).pinned_view() == old(self).pinned_view(),
            final(self).pending_view() == old(self).pending_view(),
            sorted(old(self).selected.entries_view()),
            old(self).mode != BrowserMode::PickFiles ==> r is None && final(self).selected@ == old(self).selected@,
            old(self).mode == BrowserMode::PickFiles && old(self).cursor < old(self).entries@.len()
                && old(self).entries@[old(self).cursor as int].is_dir ==> ({
                let e = old(self).entries@[old(self).cursor as int];
                let sel = old(self).selected@;
                if sel.dom().contains(e.path@) {
                    r matches Some(Taken::Given { name: Some(n), files }) && n@ == e.name@ && files == sel[e.path@].files
                        && final(self).selected@ == sel.remove(e.path@)
                } else if let Some(i) = covering_index(old(self).selected.entries_view(), e.path@) {
                    r matches Some(Taken::Covered { name }) && name@ == base_name_spec(old(self).selected.entries_view()[i].0)
                        && final(self).selected@ == sel
                } else if walked.files@.len() == 0 {
                    r matches Some(Taken::Nothing) && final(self).selected@ == sel
                } else {
                    &&& r matches Some(Taken::Folder { name, files, bytes, partial }) && name@ == e.name@
                        && files == walked.files@.len() && bytes == walked.bytes && partial == walked.partial
                    &&& final(self).selected@ == folder_taken(
                        sel,
                        e.path@,
                        Picked { bytes: walked.bytes, files: walked.files@.len() as usize, is_dir: true },
                    )
                }
            }),
            old(self).mode == BrowserMode::PickFiles && !(old(self).cursor < old(self).entries@.len()
                && old(self).entries@[old(self).cursor as int].is_dir) ==> ({
                let h = files_here(old(self).entries@);
                let sel = old(self).selected@;
                if h.len() == 0 {
                    r matches Some(Taken::Nothing) && final(self).selected@ == sel
                } else if let Some(i) = covering_index(old(self).selected.entries_view(), h[0].0) {
                    r matches Some(Taken::Covered { name }) && name@ == base_name_spec(old(self).selected.entries_view()[i].0)
                        && final(self).selected@ == sel
                } else if forall|j: int| 0 <= j < h.len() ==> sel.dom().contains(#[trigger] h[j].0) {
                    r matches Some(Taken::Given { name: None, files }) && files == h.len()
                        && final(self).selected@ == give_all(sel, h)
                } else {
                    r matches Some(Taken::Files { files, bytes }) && files == h.len() && bytes == sizes(h)
                        && final(self).selected@ == pick_all(sel, h)
                }
            }),
            final(self).root_index == old(self).root_index,
            final(self).dir_purpose == old(self).dir_purpose,
            final(self).target_alias == old(self).target_alias,
    {
        proof {
            use_type_invariant(&self.selected);
        }
        if self.mode != BrowserMode::PickFiles {
            return None;
        }
        if self.cursor_is_dir() {
            Some(self.take_dir(walked))
        } else {
            Some(self.take_here())
        }
    }

    /// X on a folder row: gives the folder back when it is picked, names the
    /// picked folder that already carries it, reports an empty walk, or picks
    /// it with its walk (`walked`), the picks inside it folded into it.
    pub fn take_dir(&mut self, walked: &SendList) -> (r: Taken)
        requires
            old(self).cursor < old(self).entries@.len(),
        ensures
            sorted(old(self).selected.entries_view()),
            picks_apart(old(self).selected@) ==> picks_apart(final(self).selected@),
            final(self).root_index == old(self).root_index,
            final(self).dir_purpose == old(self).dir_purpose,
            final(self).target_alias == old(self).target_alias,
            final(self).open == old(self).open,
            final(self).mode == old(self).mode,
            final(self).cwd == old(self).cwd,
            final(self).entries == old(self).entries,
            final(self).cursor == old(self).cursor,
            final(self).roots_view() == old(self).roots_view(),
            final(self).pinned_view() == old(self).pinned_view(),
            final(self).pending_view() == old(self).pending_view(),
            ({
                let e = old(self).entries@[old(self).cursor as int];
                let sel = old(self).selected@;
                if sel.dom().contains(e.path@) {
                    r matches Taken::Given { name: Some(n), files } && n@ == e.name@ && files == sel[e.path@].files
                        && final(self).selected@ == sel.remove(e.path@)
                } else if let Some(i) = covering_index(old(self).selected.entries_view(), e.path@) {
                    r matches Taken::Covered { name } && name@ == base_name_spec(old(self).selected.entries_view()[i].0)
                        && final(self).selected@ == sel
                } else if walked.files@.len() == 0 {
                    r matches Taken::Nothing && final(self).selected@ == sel
                } else {
                    &&& r matches Taken::Folder { name, files, bytes, partial } && name@ == e.name@
                        && files == walked.files@.len() && bytes == walked.bytes && partial == walked.partial
                    &&& final(self).selected@ == folder_taken(
                        sel,
                        e.path@,
                        Picked { bytes: walked.bytes, files: walked.files@.len() as usize, is_dir: true },
                    )
                }
            }),
    {
        proof {
            use_type_invariant(&self.selected);
        }
        let ghost sel = self.selected@;
        let c = self.cursor;
        let path = self.entries[c].path.duplicate();
        let name = self.entries[c].name.clone();
        if let Some(given) = self.selected.remove(&path) {
            proof {
                if picks_apart(sel) {
                    law_file_picks_stay_apart(sel, path@, Picked { bytes: 0, files: 0, is_dir: false });
                }
            }
            return Taken::Given { name: Some(name), files: given.files };
        }
        if let Some(folder) = self.covered_by(&path) {
            return Taken::Covered { name: base_name(&folder) };
        }
        if walked.files.len() == 0 {
            return Taken::Nothing;
        }
        let files = walked.files.len();
        let bytes = walked.bytes;
        let partial = walked.partial;
        self.selected.retain_outside(&path);
        self.selected.insert(path, Picked { bytes, files, is_dir: true });
        proof {
            if picks_apart(sel) {
                law_folder_picks_stay_apart(sel, path@, Picked { bytes, files, is_dir: true });
            }
        }
        Taken::Folder { name, files, bytes, partial }
    }

    fn take_here(&mut self) -> (r: Taken)
        ensures
            final(self).root_index == old(self).root_index,
            final(self).dir_purpose == old(self).dir_purpose,
            final(self).target_alias == old(self).target_alias,
            final(self).open == old(self).open,
            final(self).mode == old(self).mode,
            final(self).cwd == old(self).cwd,
            final(self).entries == old(self).entries,
            final(self).cursor == old(self).cursor,
            final(self).roots_view() == old(self).roots_view(),
            final(self).pinned_view() == old(self).pinned_view(),
            final(self).pending_view() == old(self).pending_view(),
            ({
                let h = files_here(old(self).entries@);
                let sel = old(self).selected@;
                if h.len() == 0 {
                    r matches Taken::Nothing && final(self).selected@ == sel
                } else if let Some(i) = covering_index(old(self).selected.entries_view(), h[0].0) {
                    r matches Taken::Covered { name } && name@ == base_name_spec(old(self).selected.entries_view()[i].0)
                        && final(self).selected@ == sel
                } else if forall|j: int| 0 <= j < h.len() ==> sel.dom().contains(#[trigger] h[j].0) {
                    r matches Taken::Given { name: None, files } && files == h.len()
                        && final(self).selected@ == give_all(sel, h)
                } else {
                    r matches Taken::Files { files, bytes } && files == h.len() && bytes == sizes(h)
                        && final(self).selected@ == pick_all(sel, h)
                }
            }),
    {
        let mut here: Vec<(FsPath, u64)> = Vec::new();
        let mut i: usize = 0;
        while i < self.entries.len()
            invariant
                i <= self.entries.len(),
                here@.map_values(|x: (FsPath, u64)| (x.0@, x.1)) == files_here(self.entries@.take(i as int)),
            decreases self.entries.len() - i,
        {
            let e = &self.entries[i];
            assert(self.entries@.take(i + 1).drop_last() == self.entries@.take(i as int));
            if !e.is_dir && !e.pinned {
                let ghost before = here@;
                let item = (e.path.duplicate(), e.size);
                here.push(item);
                assert(here@.drop_last() == before);
                assert(here@.map_values(|x: (FsPath, u64)| (x.0@, x.1)) == before.map_values(|x: (FsPath, u64)| (x.0@, x.1)).push((item.0@, item.1)));
            }
            i += 1;
        }
        assert(self.entries@.take(self.entries.len() as int) == self.entries@);
        let ghost h = here@.map_values(|x: (FsPath, u64)| (x.0@, x.1));
        if here.len() == 0 {
            return Taken::Nothing;
        }
        assert(h[0].0 == here@[0].0@);
        if let Some(folder) = self.covered_by(&here[0].0) {
            return Taken::Covered { name: base_name(&folder) };
        }
        let mut all_picked = true;
        let mut j: usize = 0;
        while j < here.len()
            invariant
                j <= here.len(),
                h == here@.map_values(|x: (FsPath, u64)| (x.0@, x.1)),
                all_picked == forall|a: int| 0 <= a < j ==> self.selected@.dom().contains(#[trigger] h[a].0),
            decreases here.len() - j,
        {
            assert(h[j as int].0 == here@[j as int].0@);
            if !self.selected.contains(&here[j].0) {
                all_picked = false;
            }
            j += 1;
        }
        let ghost sel = self.selected@;
        let mut bytes: u64 = 0;
        let mut k: usize = 0;
        while k < here.len()
            invariant
                k <= here.len(),
                h == here@.map_values(|x: (FsPath, u64)| (x.0@, x.1)),
                bytes == sizes(h.take(k as int)),
                all_picked ==> self.selected@ == give_all(sel, h.take(k as int)),
                !all_picked ==> self.selected@ == pick_all(sel, h.take(k as int)),
                self.open == old(self).open,
                self.mode == old(self).mode,
                self.cwd == old(self).cwd,
                self.entries == old(self).entries,
                self.cursor == old(self).cursor,
                self.roots_view() == old(self).roots_view(),
                self.pinned_view() == old(self).pinned_view(),
                self.pending_view() == old(self).pending_view(),
                self.root_index == old(self).root_index,
                self.dir_purpose == old(self).dir_purpose,
                self.target_alias == old(self).target_alias,
            decreases here.len() - k,
        {
            assert(h.take(k + 1).drop_last() == h.take(k as int));
            assert(h.take(k + 1).last() == (here@[k as int].0@, here@[k as int].1));
            let size = here[k].1;
            if all_picked {
                self.selected.remove(&here[k].0);
            } else {
                let p = here[k].0.duplicate();
                self.selected.insert(p, Picked { bytes: size, files: 1, is_dir: false });
            }
            bytes = bytes.saturating_add(size);
            k += 1;
        }
        assert(h.take(here.len() as int) == h);
        if all_picked {
            Taken::Given { name: None, files: here.len() }
        } else {
            Taken::Files { files: here.len(), bytes }
        }
    }

    /// Y: pins or unpins what `pin_target` names, and leaves the listing
    /// pending again so the row appears or goes, the cursor staying on its row.
    /// Returns the new pin list for the config and what changed; `None` when
    /// there is nothing to act on.
    pub fn toggle_pin(&mut self) -> (r: Option<PinChange>)
        ensures
            old(self).pin_target_spec() is None ==> r is None && final(self).pinned_view() == old(self).pinned_view()
                && final(self).pending_view() == old(self).pending_view(),
            old(self).pin_target_spec() matches Some(t) ==> {
                let was = old(self).pinned_view().contains(t);
                &&& r matches Some(c) && c.path@ == t && c.pinned == !was
                    && c.paths@.map_values(|x: String| x@) == final(self).pinned_view().map_values(|p: PathModel| display_spec(p))
                &&& !was ==> final(self).pinned_view() == old(self).pinned_view().push(t)
                &&& was ==> final(self).pinned_view() == without_first(old(self).pinned_view(), t)
                &&& final(self).pending_view() == Some(old(self).cwd@)
                &&& final(self).pending matches Some((_, AfterLoad::KeepRow { cursor, added })) && cursor == old(self).cursor && added == !was
            },
            final(self).open == old(self).open,
            final(self).mode == old(self).mode,
            final(self).cwd == old(self).cwd,
            final(self).entries == old(self).entries,
            final(self).cursor == old(self).cursor,
            final(self).selected == old(self).selected,
            final(self).roots_view() == old(self).roots_view(),
            final(self).root_index == old(self).root_index,
            final(self).dir_purpose == old(self).dir_purpose,
            final(self).target_alias == old(self).target_alias,
    {
        let target = match self.pin_target() {
            Some(t) => t,
            None => return None,
        };
        let added = match index_of_path(&self.pinned, &target) {
            Some(i) => {
                proof {
                    let pv = self.pinned_view();
                    assert(pv[i as int] == target@);
                    let c = choose|c: int| 0 <= c < pv.len() && pv[c] == target@ && forall|j: int| 0 <= j < c ==> pv[j] != target@;
                    assert(c == i as int) by {
                        if c < i {} else if c > i {}
                    }
                }
                let ghost before = self.pinned@;
                self.pinned.remove(i);
                assert(path_views(self.pinned@) == path_views(before).remove(i as int));
                false
            },
            None => {
                assert(!self.pinned_view().contains(target@));
                let ghost before = self.pinned@;
                self.pinned.push(target.duplicate());
                assert(self.pinned@.drop_last() == before);
                assert(path_views(self.pinned@) == path_views(before).push(target@));
                true
            },
        };
        let cursor = self.cursor;
        let cwd = self.cwd.duplicate();
        self.request_load(cwd, AfterLoad::KeepRow { cursor, added });
        let mut paths: Vec<String> = Vec::new();
        let mut i: usize = 0;
        while i < self.pinned.len()
            invariant
                i <= self.pinned.len(),
                paths@.map_values(|x: String| x@) == self.pinned_view().take(i as int).map_values(|p: PathModel| display_spec(p)),
            decreases self.pinned.len() - i,
        {
            let ghost before = paths@;
            let text = self.pinned[i].to_path_string();
            paths.push(text);
            assert(paths@.drop_last() == before);
            assert(paths@.map_values(|x: String| x@) == before.map_values(|x: String| x@).push(text@));
            assert(self.pinned_view().take(i + 1) == self.pinned_view().take(i as int).push(self.pinned@[i as int]@));
            i += 1;
        }
        assert(self.pinned_view().take(self.pinned.len() as int) == self.pinned_view());
        Some(PinChange { paths, pinned: added, path: target })
    }

    /// Closes the browser, letting go of the listing and the selection.
    pub fn close(&mut self)
        ensures
            !final(self).open,
            final(self).entries@.len() == 0,
            final(self).selected@ == Map::<PathModel, Picked>::empty(),
            final(self).pending_view() is None,
            final(self).mode == old(self).mode,
            final(self).cwd == old(self).cwd,
            final(self).cursor == old(self).cursor,
            final(self).roots_view() == old(self).roots_view(),
            final(self).pinned_view() == old(self).pinned_view(),
            final(self).root_index == old(self).root_index,
            final(self).dir_purpose == old(self).dir_purpose,
            final(self).target_alias == old(self).target_alias,
    {
        self.open = false;
        self.entries = Vec::new();
        self.selected = Selection::new();
        self.pending = None;
    }

    /// (files, total bytes) of the selection; a picked folder counts its tree.
    pub fn selection_totals(&self) -> (r: (usize, u64))
        ensures
            r == self.selected.totals_spec(),
            sorted(self.selected.entries_view()),
    {
        self.selected.totals()
    }

    /// The picked paths, in path order.
    pub fn selected_paths(&self) -> (r: Vec<FsPath>)
        ensures
            path_views(r@) == self.selected.paths_in_order(),
            forall|k: PathModel| path_views(r@).contains(k) <==> self.selected@.dom().contains(k),
            forall|a: int, b: int| 0 <= a < b < r@.len() ==> path_lt(#[trigger] r@[a]@, #[trigger] r@[b]@),
    {
        self.selected.paths()
    }

    /// The picked folder whose tree already holds `path` (the first in path
    /// order), which is then not pickable on its own.
    pub fn covered_by(&self, path: &FsPath) -> (r: Option<FsPath>)
        ensures
            match covering_index(self.selected.entries_view(), path@) {
                Some(i) => r matches Some(f) && f@ == self.selected.entries_view()[i].0,
                None => r is None,
            },
            r is Some <==> held_by_picked_folder(self.selected@, path@),
            r matches Some(f) ==> self.selected@.dom().contains(f@) && self.selected@[f@].is_dir
                && is_inside_spec(f@, path@),
            sorted(self.selected.entries_view()),
    {
        self.selected.covering(path)
    }

    /// Whether the cursor row is a directory (X then takes a folder rather
    /// than the files of the cwd).
    pub fn cursor_is_dir(&self) -> (r: bool)
        ensures
            r == (self.cursor < self.entries@.len() && self.entries@[self.cursor as int].is_dir),
    {
        self.cursor < self.entries.len() && self.entries[self.cursor].is_dir
    }

    /// Moves the cursor by `delta` rows, staying on a row.
    pub fn move_cursor(&mut self, delta: i32)
        ensures
            final(self).cursor == moved_cursor(old(self).cursor as int, old(self).entries@.len() as int, delta as int),
            final(self).entries == old(self).entries,
            final(self).cwd == old(self).cwd,
            final(self).selected == old(self).selected,
            final(self).open == old(self).open,
            final(self).mode == old(self).mode,
            final(self).pinned_view() == old(self).pinned_view(),
            final(self).roots_view() == old(self).roots_view(),
            final(self).pending_view() == old(self).pending_view(),
            final(self).root_index == old(self).root_index,
            final(self).dir_purpose == old(self).dir_purpose,
            final(self).target_alias == old(self).target_alias,
    {
        let len = self.entries.len();
        if len == 0 {
            self.cursor = 0;
            return;
        }
        let from = if self.cursor < len - 1 {
            self.cursor
        } else {
            len - 1
        };
        if delta < 0 {
            let back = (0i64 - delta as i64) as u64;
            self.cursor = if (from as u64) < back {
                0
            } else {
                ((from as u64) - back) as usize
            };
        } else {
            let ahead = delta as u64;
            let room = ((len - 1) - from) as u64;
            self.cursor = if ahead > room {
                len - 1
            } else {
                from + (ahead as usize)
            };
        }
    }

    /// Puts the cursor straight on `index`, clamped to the listing (which can
    /// be rebuilt between a tap and its handling).
    pub fn set_cursor(&mut self, index: usize)
        ensures
            final(self).cursor == (if old(self).entries@.len() == 0 {
                0
            } else if index < old(self).entries@.len() {
                index as int
            } else {
                old(self).entries@.len() - 1
            }),
            final(self).entries == old(self).entries,
            final(self).cwd == old(self).cwd,
            final(self).selected == old(self).selected,
            final(self).pinned_view() == old(self).pinned_view(),
            final(self).pending_view() == old(self).pending_view(),
            final(self).root_index == old(self).root_index,
            final(self).dir_purpose == old(self).dir_purpose,
            final(self).target_alias == old(self).target_alias,
    {
        let last = if self.entries.len() == 0 {
            0
        } else {
            self.entries.len() - 1
        };
        self.cursor = if index < last {
            index
        } else {
            last
        };
    }

    /// How many rows at the top of the listing are pins: where the folder's
    /// own entries begin.
    pub fn pinned_rows(&self) -> (n: usize)
        ensures
            n == leading_pins(self.entries@),
    {
        let mut n: usize = 0;
        assert(self.entries@.skip(0) == self.entries@);
        while n < self.entries.len() && self.entries[n].pinned
            invariant
                n <= self.entries.len(),
                leading_pins(self.entries@) == n + leading_pins(self.entries@.skip(n as int)),
            decreases self.entries.len() - n,
        {
            assert(self.entries@.skip(n as int).drop_first() == self.entries@.skip(n + 1));
            n += 1;
        }
        n
    }

    /// What Y acts on: the row under the cursor, or the folder being looked at
    /// when there is no row to point at.
    pub open spec fn pin_target_spec(&self) -> Option<PathModel> {
        if self.cursor < self.entries@.len() {
            Some(self.entries@[self.cursor as int].path@)
        } else if !is_empty_path(self.cwd@) {
            Some(self.cwd@)
        } else {
            None
        }
    }

    /// What Y acts on.
    pub fn pin_target(&self) -> (r: Option<FsPath>)
        ensures
            match r {
                Some(p) => self.pin_target_spec() == Some(p@),
                None => self.pin_target_spec() is None,
            },
    {
        if self.cursor < self.entries.len() {
            return Some(self.entries[self.cursor].path.duplicate());
        }
        if !self.cwd.absolute && self.cwd.parts.len() == 0 {
            assert(self.cwd@.1.len() == 0);
            return None;
        }
        if !self.cwd.absolute {
            assert(self.cwd@.1.len() != 0);
        }
        Some(self.cwd.duplicate())
    }

    /// Whether what Y acts on is pinned.
    pub fn target_is_pinned(&self) -> (r: bool)
        ensures
            r == (self.pin_target_spec() matches Some(t) && self.pinned_view().contains(t)),
    {
        match self.pin_target() {
            Some(t) => match index_of_path(&self.pinned, &t) {
                Some(i) => {
                    assert(self.pinned_view()[i as int] == t@);
                    true
                },
                None => {
                    assert(!self.pinned_view().contains(t@));
                    false
                },
            },
            None => false,
        }
    }
}

} // verus!
