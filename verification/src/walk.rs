//! Walking folders for a send, and sweeping stale partial files, as state
//! machines: each asks for one directory listing at a time (`next_dir`), the
//! app reads it and hands it over (`feed`), and the machine decides what the
//! entries mean.

use vstd::prelude::*;
use crate::files::{
    base_name, base_name_spec, last_dot, part_path_spec, path_extension, path_extension_spec, DirEntry,
    SendFile, SendList, MAX_DEPTH,
};

use crate::fspath::{
    display_spec, join_parts, lemma_display_parse, parent_spec, plain_component, plain_path, FsPath,
    PathModel,
};

verus! {

/// Most files one send may carry. A receiver caps the prepare-upload body and
/// every file spends a couple of hundred bytes of it.
pub const MAX_SEND_FILES: usize = 2048;

/// Deepest folder level a picked directory is walked to.
pub const MAX_SEND_DEPTH: usize = 16;

/// An entry waiting to be looked at: its listing row, the name it travels
/// under, and the depth of the folder it was listed in.
pub struct Pending {
    pub entry: DirEntry,
    pub name: String,
    pub depth: usize,
}

/// A file of the list as the contracts see it: path, name, size.
pub type FileModel = (PathModel, Seq<char>, u64);

/// A waiting entry as the contracts see it: path, name, directory, size,
/// depth of its folder.
pub type PendingModel = (PathModel, Seq<char>, bool, u64, nat);

/// The model of a listed file.
pub open spec fn file_model(f: SendFile) -> FileModel {
    (f.path@, f.name@, f.size)
}

/// The models of the list's files.
pub open spec fn file_models(v: Seq<SendFile>) -> Seq<FileModel> {
    v.map_values(|f: SendFile| file_model(f))
}

/// The model of a waiting entry.
pub open spec fn pending_model(p: Pending) -> PendingModel {
    (p.entry.path@, p.name@, p.entry.is_dir, p.entry.size, p.depth as nat)
}

/// The models of the waiting entries; the last is looked at first.
pub open spec fn pending_models(v: Seq<Pending>) -> Seq<PendingModel> {
    v.map_values(|p: Pending| pending_model(p))
}

/// What the walk does with its waiting entries until it needs a listing or
/// runs out: at the file cap it stops and says the list is partial; a file
/// joins the list; a folder above the depth cap is listed next (under its
/// own name, one level deeper); a folder at the cap is left out and the list
/// is partial. Returns the files, whether partial, what still waits, and the
/// folder to list next.
pub open spec fn run(files: Seq<FileModel>, partial: bool, stack: Seq<PendingModel>) -> (
    Seq<FileModel>,
    bool,
    Seq<PendingModel>,
    Option<(PathModel, Seq<char>, nat)>,
)
    decreases stack.len(),
{
    if stack.len() == 0 {
        (files, partial, stack, None)
    } else if files.len() >= MAX_SEND_FILES {
        (files, true, Seq::empty(), None)
    } else {
        let it = stack.last();
        let rest = stack.drop_last();
        if !it.2 {
            run(files.push((it.0, it.1, it.3)), partial, rest)
        } else if it.4 < MAX_SEND_DEPTH {
            (files, partial, rest, Some((it.0, it.1, it.4 + 1)))
        } else {
            run(files, true, rest)
        }
    }
}

/// A walk that wants no listing has nothing left waiting.
pub proof fn lemma_run_done(files: Seq<FileModel>, partial: bool, stack: Seq<PendingModel>)
    ensures
        run(files, partial, stack).3 is None ==> run(files, partial, stack).2.len() == 0,
    decreases stack.len(),
{
    if stack.len() > 0 && files.len() < MAX_SEND_FILES {
        let it = stack.last();
        if !it.2 {
            lemma_run_done(files.push((it.0, it.1, it.3)), partial, stack.drop_last());
        } else if it.4 >= MAX_SEND_DEPTH {
            lemma_run_done(files, true, stack.drop_last());
        }
    }
}

/// A walk never carries more than `MAX_SEND_FILES` files when it starts
/// within the cap, and a file is only ever added, never dropped: what it
/// held stays first.
pub proof fn law_walk_respects_the_cap(files: Seq<FileModel>, partial: bool, stack: Seq<PendingModel>)
    requires
        files.len() <= MAX_SEND_FILES,
    ensures
        run(files, partial, stack).0.len() <= MAX_SEND_FILES,
        run(files, partial, stack).0.len() >= files.len(),
        run(files, partial, stack).0.take(files.len() as int) == files,
        partial ==> run(files, partial, stack).1,
    decreases stack.len(),
{
    if stack.len() > 0 && files.len() < MAX_SEND_FILES {
        let it = stack.last();
        if !it.2 {
            law_walk_respects_the_cap(files.push((it.0, it.1, it.3)), partial, stack.drop_last());
            let after = run(files.push((it.0, it.1, it.3)), partial, stack.drop_last()).0;
            assert(after.take(files.len() as int) =~= after.take(files.len() + 1int).take(files.len() as int));
            assert(files.push((it.0, it.1, it.3)).take(files.len() as int) == files);
        } else if it.4 >= MAX_SEND_DEPTH {
            law_walk_respects_the_cap(files, true, stack.drop_last());
        } else {
            assert(files.take(files.len() as int) == files);
        }
    } else {
        assert(files.take(files.len() as int) == files);
    }
}

/// A folder's listing as waiting entries, named `<prefix>/<name>`, the first
/// row last so that it is looked at first.
pub open spec fn pushed_rows(rows: Seq<DirEntry>, prefix: Seq<char>, depth: nat) -> Seq<PendingModel>
    decreases rows.len(),
{
    if rows.len() == 0 {
        Seq::empty()
    } else {
        let e = rows[0];
        pushed_rows(rows.drop_first(), prefix, depth).push(
            (e.path@, prefix + seq!['/'] + e.name@, e.is_dir, e.size, depth),
        )
    }
}

/// The sizes of files added up, to the limit of `u64`.
pub open spec fn total_bytes(files: Seq<FileModel>) -> u64
    decreases files.len(),
{
    if files.len() == 0 {
        0
    } else {
        let s = total_bytes(files.drop_last()) + files.last().2;
        if s <= u64::MAX {
            s as u64
        } else {
            u64::MAX
        }
    }
}

/// Whether the folder a walk wants listed is `w`: the same path, name and
/// depth, or none on both sides.
pub open spec fn wanted_is(wanted: Option<(FsPath, String, usize)>, w: Option<(PathModel, Seq<char>, nat)>) -> bool {
    match w {
        Some(w) => wanted matches Some(x) && x.0@ == w.0 && x.1@ == w.1 && x.2 == w.2,
        None => wanted is None,
    }
}

/// Where a walk stands once it has been handed `listing`: the files, whether
/// the list is partial, what still waits, and the folder to list next.
pub open spec fn fed(w: Walk, listing: Result<Vec<DirEntry>, String>) -> (
    Seq<FileModel>,
    bool,
    Seq<PendingModel>,
    Option<(PathModel, Seq<char>, nat)>,
) {
    let (files, partial, stack) = match w.wanted {
        None => (file_models(w.list.files@), w.list.partial, pending_models(w.stack@)),
        Some(x) => match listing {
            Err(_) => (file_models(w.list.files@), true, pending_models(w.stack@)),
            Ok(rows) => (
                file_models(w.list.files@),
                w.list.partial,
                pending_models(w.stack@) + pushed_rows(rows@, x.1@, x.2 as nat),
            ),
        },
    };
    run(files, partial, stack)
}

/// A walk in progress.
pub struct Walk {
    /// The files found so far.
    pub list: SendList,
    /// Entries waiting to be looked at; the last is next.
    pub stack: Vec<Pending>,
    /// The folder whose listing is needed next: its path, the name its files
    /// travel under, and its depth.
    pub wanted: Option<(FsPath, String, usize)>,
}

impl Walk {
    /// The walk's well-formedness: the list's bytes are its files' sizes
    /// added up.
    pub open spec fn wf(&self) -> bool {
        &&& self.list.bytes == total_bytes(file_models(self.list.files@))
    }

    /// A walk of `dir` whose files travel under the folder's own name, adding
    /// to `list`.
    pub fn start(list: SendList, dir: &FsPath) -> (w: Walk)
        requires
            list.bytes == total_bytes(file_models(list.files@)),
        ensures
            w.wf(),
            w.list == list,
            w.stack@.len() == 0,
            w.wanted matches Some(x) && x.0@ == dir@ && x.1@ == base_name_spec(dir@) && x.2 == 1,
    {
        let name = base_name(dir);
        Walk { list, stack: Vec::new(), wanted: Some((dir.duplicate(), name, 1)) }
    }

    /// The folder to list next; `None` once the walk is done.
    pub fn next_dir(&self) -> (r: Option<FsPath>)
        ensures
            match r {
                Some(p) => self.wanted matches Some(x) && x.0@ == p@,
                None => self.wanted is None,
            },
    {
        match &self.wanted {
            Some(x) => Some(x.0.duplicate()),
            None => None,
        }
    }

    /// Hands over the listing of `next_dir` (or why it could not be read: the
    /// list is then partial) and walks on until the next listing is needed.
    pub fn feed(&mut self, listing: Result<Vec<DirEntry>, String>)
        requires
            old(self).wf(),
        ensures
            final(self).wf(),
            ({
                let after = fed(*old(self), listing);
                &&& file_models(final(self).list.files@) == after.0
                &&& final(self).list.partial == after.1
                &&& pending_models(final(self).stack@) == after.2
                &&& wanted_is(final(self).wanted, after.3)
            }),
            walk_state(*final(self)) == step_state(walk_state(*old(self)), listing),
    {
        let mut wanted: Option<(FsPath, String, usize)> = None;
        std::mem::swap(&mut wanted, &mut self.wanted);
        if let Some((_, prefix, depth)) = wanted {
            match listing {
                Err(_) => {
                    self.list.partial = true;
                },
                Ok(rows) => {
                    self.push_rows(rows, &prefix, depth);
                },
            }
        }
        self.advance();
    }

    fn push_rows(&mut self, rows: Vec<DirEntry>, prefix: &String, depth: usize)
        ensures
            pending_models(final(self).stack@) == pending_models(old(self).stack@) + pushed_rows(rows@, prefix@, depth as nat),
            final(self).list == old(self).list,
            final(self).wanted == old(self).wanted,
    {
        let mut rows = rows;
        let ghost all = rows@;
        let ghost base = pending_models(self.stack@);
        let n = rows.len();
        let mut k: usize = n;
        while k > 0
            invariant
                k <= n == all.len(),
                rows@ == all.take(k as int),
                pending_models(self.stack@) == base + pushed_rows(all.skip(k as int), prefix@, depth as nat),
                self.list == old(self).list,
                self.wanted == old(self).wanted,
            decreases k,
        {
            let e = rows.pop().unwrap();
            assert(e == all[k - 1]);
            let mut name = prefix.clone();
            name.push('/');
            name.append(e.name.as_str());
            let ghost row = (e.path@, prefix@ + seq!['/'] + e.name@, e.is_dir, e.size, depth as nat);
            assert(name@ == prefix@ + seq!['/'] + e.name@);
            let p = Pending { entry: e, name, depth };
            assert(pending_model(p) == row);
            let ghost before = self.stack@;
            self.stack.push(p);
            assert(self.stack@.drop_last() == before);
            assert(pending_models(self.stack@) == pending_models(before).push(pending_model(p)));
            assert(all.skip(k - 1).drop_first() == all.skip(k as int));
            assert(all.skip(k - 1)[0] == all[k - 1]);
            assert(pushed_rows(all.skip(k - 1), prefix@, depth as nat) == pushed_rows(all.skip(k as int), prefix@, depth as nat).push(row));
            assert(base + pushed_rows(all.skip(k as int), prefix@, depth as nat).push(row) == (base + pushed_rows(all.skip(k as int), prefix@, depth as nat)).push(row));
            assert(all.take(k - 1) == all.take(k as int).drop_last());
            k -= 1;
        }
        assert(all.skip(0) == all);
    }

    fn advance(&mut self)
        requires
            old(self).wf(),
            old(self).wanted is None,
        ensures
            final(self).wf(),
            ({
                let after = run(file_models(old(self).list.files@), old(self).list.partial, pending_models(old(self).stack@));
                &&& file_models(final(self).list.files@) == after.0
                &&& final(self).list.partial == after.1
                &&& pending_models(final(self).stack@) == after.2
                &&& match after.3 {
                    Some(w) => final(self).wanted matches Some(x) && x.0@ == w.0 && x.1@ == w.1 && x.2 == w.2,
                    None => final(self).wanted is None,
                }
            }),
    {
        let ghost target = run(file_models(self.list.files@), self.list.partial, pending_models(self.stack@));
        while self.stack.len() > 0
            invariant_except_break
                self.wf(),
                self.wanted is None,
                run(file_models(self.list.files@), self.list.partial, pending_models(self.stack@)) == target,
            ensures
                self.wf(),
                file_models(self.list.files@) == target.0,
                self.list.partial == target.1,
                pending_models(self.stack@) == target.2,
                match target.3 {
                    Some(w) => self.wanted matches Some(x) && x.0@ == w.0 && x.1@ == w.1 && x.2 == w.2,
                    None => self.wanted is None,
                },
            decreases self.stack.len(),
        {
            if self.list.files.len() >= MAX_SEND_FILES {
                self.list.partial = true;
                self.stack = Vec::new();
                assert(pending_models(self.stack@) == Seq::<PendingModel>::empty());
                break;
            }
            let ghost before = self.stack@;
            let it = self.stack.pop().unwrap();
            assert(self.stack@ == before.drop_last());
            assert(pending_models(self.stack@) == pending_models(before).drop_last());
            assert(pending_models(before).last() == pending_model(it));
            if !it.entry.is_dir {
                let ghost old_files = self.list.files@;
                let ghost fm = file_models(old_files);
                let ghost old_bytes = self.list.bytes;
                self.list.push(it.entry.path, it.name, it.entry.size);
                assert(self.list.files@.drop_last() == old_files);
                assert(file_models(self.list.files@) == fm.push(file_model(self.list.files@.last())));
                assert(file_models(self.list.files@).drop_last() == fm);
                assert(total_bytes(file_models(self.list.files@)) == (if total_bytes(fm) + it.entry.size <= u64::MAX {
                    (total_bytes(fm) + it.entry.size) as u64
                } else {
                    u64::MAX
                }));
            } else if it.depth < MAX_SEND_DEPTH {
                self.wanted = Some((it.entry.path, it.name, it.depth + 1));
                break;
            } else {
                self.list.partial = true;
            }
        }
    }

    /// The list once the walk is done.
    pub fn finish(self) -> (l: SendList)
        ensures
            l == self.list,
    {
        self.list
    }
}


/// Whether `name` travels under the folder name `root`: `root/…`.
pub open spec fn travels_under(name: Seq<char>, root: Seq<char>) -> bool {
    (root + seq!['/']).is_prefix_of(name)
}

/// Every file found, every entry waiting and the folder wanted next travel
/// under `root` (the wanted folder may be `root` itself).
pub open spec fn named_under(
    files: Seq<FileModel>,
    stack: Seq<PendingModel>,
    wanted: Option<(PathModel, Seq<char>, nat)>,
    root: Seq<char>,
) -> bool {
    &&& forall|i: int| 0 <= i < files.len() ==> travels_under(#[trigger] files[i].1, root)
    &&& forall|i: int| 0 <= i < stack.len() ==> travels_under(#[trigger] stack[i].1, root)
    &&& wanted matches Some(x) ==> x.1 == root || travels_under(x.1, root)
}

/// The folder a walk wants, as the contracts see it.
pub open spec fn wanted_model(wanted: Option<(FsPath, String, usize)>) -> Option<(PathModel, Seq<char>, nat)> {
    match wanted {
        Some(x) => Some((x.0@, x.1@, x.2 as nat)),
        None => None,
    }
}

proof fn lemma_under_extended(name: Seq<char>, root: Seq<char>, more: Seq<char>)
    requires
        name == root || travels_under(name, root),
    ensures
        travels_under(name + seq!['/'] + more, root),
{
    let r = root + seq!['/'];
    let full = name + seq!['/'] + more;
    if name == root {
        assert(full.subrange(0, r.len() as int) =~= r);
    } else {
        assert forall|i: int| 0 <= i < r.len() implies full.subrange(0, r.len() as int)[i] == r[i] by {
            assert(full[i] == name[i]);
            assert(name.subrange(0, r.len() as int)[i] == name[i]);
        }
        assert(full.subrange(0, r.len() as int) =~= r);
    }
}

proof fn lemma_pushed_rows_under(rows: Seq<DirEntry>, prefix: Seq<char>, depth: nat, root: Seq<char>)
    requires
        prefix == root || travels_under(prefix, root),
    ensures
        forall|i: int| 0 <= i < pushed_rows(rows, prefix, depth).len() ==> travels_under(
            #[trigger] pushed_rows(rows, prefix, depth)[i].1,
            root,
        ),
        pushed_rows(rows, prefix, depth).len() == rows.len(),
    decreases rows.len(),
{
    if rows.len() > 0 {
        lemma_pushed_rows_under(rows.drop_first(), prefix, depth, root);
        lemma_under_extended(prefix, root, rows[0].name@);
    }
}

proof fn lemma_run_under(files: Seq<FileModel>, partial: bool, stack: Seq<PendingModel>, root: Seq<char>)
    requires
        named_under(files, stack, None, root),
    ensures
        named_under(run(files, partial, stack).0, run(files, partial, stack).2, run(files, partial, stack).3, root),
    decreases stack.len(),
{
    if stack.len() > 0 && files.len() < MAX_SEND_FILES {
        let it = stack.last();
        let rest = stack.drop_last();
        assert(travels_under(stack[stack.len() - 1].1, root));
        assert forall|i: int| 0 <= i < rest.len() implies travels_under(#[trigger] rest[i].1, root) by {
            assert(rest[i] == stack[i]);
        }
        if !it.2 {
            let more = files.push((it.0, it.1, it.3));
            assert forall|i: int| 0 <= i < more.len() implies travels_under(#[trigger] more[i].1, root) by {
                if i < files.len() {
                    assert(more[i] == files[i]);
                }
            }
            lemma_run_under(more, partial, rest, root);
        } else if it.4 >= MAX_SEND_DEPTH {
            lemma_run_under(files, true, rest, root);
        }
    }
}

/// What one listing does to a walk, all at once: the files it held stay
/// first and the cap holds; a partial list stays partial, and so does one
/// whose wanted listing could not be read; and when everything so far
/// travels under the walked folder's name `root`, so does everything after
/// (the bytes are the files' sizes added up: `Walk::feed` keeps `wf`).
pub proof fn law_feed_keeps_the_walk(w: Walk, listing: Result<Vec<DirEntry>, String>, root: Seq<char>)
    requires
        w.list.files@.len() <= MAX_SEND_FILES,
    ensures
        ({
            let before = file_models(w.list.files@);
            let after = fed(w, listing);
            &&& after.0.len() <= MAX_SEND_FILES
            &&& after.0.take(before.len() as int) == before
            &&& w.list.partial ==> after.1
            &&& (w.wanted is Some && listing is Err) ==> after.1
            &&& named_under(before, pending_models(w.stack@), wanted_model(w.wanted), root) ==> named_under(
                after.0,
                after.2,
                after.3,
                root,
            )
        }),
{
    assert(fed(w, listing) == step_state(walk_state(w), listing));
    lemma_step_keeps(walk_state(w), listing, root);
}

/// Where a walk stands, as the contracts see it: the files found, whether
/// the list is partial, what waits, and the folder wanted next.
pub type WalkState = (Seq<FileModel>, bool, Seq<PendingModel>, Option<(PathModel, Seq<char>, nat)>);

/// The state of `w`.
pub open spec fn walk_state(w: Walk) -> WalkState {
    (file_models(w.list.files@), w.list.partial, pending_models(w.stack@), wanted_model(w.wanted))
}

/// One listing handed to a walk in state `st`: the wanted folder's rows
/// wait their turn (or, unreadable, the list becomes partial), then the walk
/// goes on until it needs the next listing.
pub open spec fn step_state(st: WalkState, listing: Result<Vec<DirEntry>, String>) -> WalkState {
    match st.3 {
        None => run(st.0, st.1, st.2),
        Some(x) => match listing {
            Err(_) => run(st.0, true, st.2),
            Ok(rows) => run(st.0, st.1, st.2 + pushed_rows(rows@, x.1, x.2)),
        },
    }
}

/// The listings handed to a walk in state `st`, one after the other.
pub open spec fn walked(st: WalkState, listings: Seq<Result<Vec<DirEntry>, String>>) -> WalkState
    decreases listings.len(),
{
    if listings.len() == 0 {
        st
    } else {
        walked(step_state(st, listings[0]), listings.drop_first())
    }
}

/// Whether, along `listings`, a folder the walk wanted could not be listed.
pub open spec fn a_listing_failed(st: WalkState, listings: Seq<Result<Vec<DirEntry>, String>>) -> bool
    decreases listings.len(),
{
    listings.len() > 0 && ((st.3 is Some && listings[0] is Err) || a_listing_failed(
        step_state(st, listings[0]),
        listings.drop_first(),
    ))
}

/// The state a walk of folder `dir` starts in: nothing found, `dir` wanted
/// under its own name at depth 1.
pub open spec fn walk_start(dir: PathModel) -> WalkState {
    (Seq::empty(), false, Seq::empty(), Some((dir, base_name_spec(dir), 1nat)))
}

proof fn lemma_step_keeps(st: WalkState, listing: Result<Vec<DirEntry>, String>, root: Seq<char>)
    requires
        st.0.len() <= MAX_SEND_FILES,
    ensures
        ({
            let after = step_state(st, listing);
            &&& after.0.len() <= MAX_SEND_FILES
            &&& after.0.len() >= st.0.len()
            &&& after.0.take(st.0.len() as int) == st.0
            &&& st.1 ==> after.1
            &&& (st.3 is Some && listing is Err) ==> after.1
            &&& named_under(st.0, st.2, st.3, root) ==> named_under(after.0, after.2, after.3, root)
        }),
{
    let (files, partial, stack) = match st.3 {
        None => (st.0, st.1, st.2),
        Some(x) => match listing {
            Err(_) => (st.0, true, st.2),
            Ok(rows) => (st.0, st.1, st.2 + pushed_rows(rows@, x.1, x.2)),
        },
    };
    assert(step_state(st, listing) == run(files, partial, stack));
    law_walk_respects_the_cap(files, partial, stack);
    if named_under(st.0, st.2, st.3, root) {
        match st.3 {
            None => {},
            Some(x) => match listing {
                Err(_) => {},
                Ok(rows) => {
                    lemma_pushed_rows_under(rows@, x.1, x.2, root);
                    let pushed = pushed_rows(rows@, x.1, x.2);
                    assert forall|i: int| 0 <= i < stack.len() implies travels_under(#[trigger] stack[i].1, root) by {
                        if i < st.2.len() {
                            assert(stack[i] == st.2[i]);
                        } else {
                            assert(stack[i] == pushed[i - st.2.len()]);
                        }
                    }
                },
            },
        }
        lemma_run_under(files, partial, stack, root);
    }
}

/// A whole walk keeps its promises, whatever the listings: the files found
/// before stay first, the file cap holds, a partial list stays partial, a
/// folder that could not be listed leaves the list partial, and when
/// everything so far travels under `root`, everything after does too.
pub proof fn law_a_whole_walk_keeps_its_promises(
    st: WalkState,
    listings: Seq<Result<Vec<DirEntry>, String>>,
    root: Seq<char>,
)
    requires
        st.0.len() <= MAX_SEND_FILES,
    ensures
        ({
            let end = walked(st, listings);
            &&& end.0.len() <= MAX_SEND_FILES
            &&& end.0.len() >= st.0.len()
            &&& end.0.take(st.0.len() as int) == st.0
            &&& st.1 ==> end.1
            &&& a_listing_failed(st, listings) ==> end.1
            &&& named_under(st.0, st.2, st.3, root) ==> named_under(end.0, end.2, end.3, root)
        }),
    decreases listings.len(),
{
    if listings.len() == 0 {
        assert(st.0.take(st.0.len() as int) == st.0);
    } else {
        let nx = step_state(st, listings[0]);
        lemma_step_keeps(st, listings[0], root);
        law_a_whole_walk_keeps_its_promises(nx, listings.drop_first(), root);
        let end = walked(nx, listings.drop_first());
        assert(end.0.take(st.0.len() as int) =~= end.0.take(nx.0.len() as int).take(st.0.len() as int));
    }
}

/// The walk of a folder, whatever its listings say: at most
/// `MAX_SEND_FILES` files, each travelling under the folder's own name
/// (`<name>/…`), and a partial list if a folder could not be listed. (Its
/// bytes are its files' sizes added up: `Walk::wf`.)
pub proof fn law_a_folder_walk_keeps_its_promises(dir: PathModel, listings: Seq<Result<Vec<DirEntry>, String>>)
    ensures
        ({
            let end = walked(walk_start(dir), listings);
            &&& end.0.len() <= MAX_SEND_FILES
            &&& forall|i: int| 0 <= i < end.0.len() ==> travels_under(#[trigger] end.0[i].1, base_name_spec(dir))
            &&& a_listing_failed(walk_start(dir), listings) ==> end.1
        }),
{
    law_a_whole_walk_keeps_its_promises(walk_start(dir), listings, base_name_spec(dir));
}

/// A folder's files, walked so a browser can total them before the send:
/// the walk of `dir` under its own name, started. Drive it with `next_dir`
/// and `feed`; `finish` gives the list.
pub fn walk_folder(dir: &FsPath) -> (w: Walk)
    ensures
        w.wf(),
        w.list.files@.len() == 0,
        w.list.bytes == 0,
        !w.list.partial,
        w.stack@.len() == 0,
        w.wanted matches Some(x) && x.0@ == dir@ && x.1@ == base_name_spec(dir@) && x.2 == 1,
        walk_state(w) == walk_start(dir@),
{
    let w = Walk::start(SendList::new(), dir);
    assert(file_models(w.list.files@) =~= Seq::<FileModel>::empty());
    assert(pending_models(w.stack@) =~= Seq::<PendingModel>::empty());
    w
}

/// Partial files older than this (a day, in seconds) are nobody's transfer.
pub const MAX_SWEEP_AGE_SECS: u64 = 86400;

/// Directories one sweep may open: a save directory is a card's ROM tree,
/// and the sweep runs before the first frame.
pub const MAX_SWEEP_DIRS: usize = 512;

/// One listed entry, as the sweep needs it: whether it is a directory (`None`
/// when its type could not be read) and how long since it was modified, in
/// seconds (`None` when that could not be read).
pub struct SweepEntry {
    pub path: FsPath,
    pub is_dir: Option<bool>,
    pub age_secs: Option<u64>,
}

/// A partial file: its extension is `part`.
pub open spec fn is_part_spec(p: PathModel) -> bool {
    path_extension_spec(p) == Some(seq!['p', 'a', 'r', 't'])
}

proof fn lemma_join_parts_extend(parts: Seq<Seq<char>>, x: Seq<char>)
    requires
        parts.len() > 0,
    ensures
        join_parts(parts) + x == join_parts(parts.update(parts.len() - 1, parts.last() + x)),
    decreases parts.len(),
{
    let up = parts.update(parts.len() - 1, parts.last() + x);
    if parts.len() > 1 {
        assert(up.drop_last() == parts.drop_last());
    }
}

/// A part file is its target's sibling, and ends in `.part` whatever the
/// tag, so the sweep of stale parts finds it: its extension is `part`.
pub proof fn law_part_path_is_a_swept_sibling(p: PathModel, tag: Seq<char>)
    requires
        plain_path(p),
        p.1.len() > 0,
        forall|i: int| 0 <= i < tag.len() ==> tag[i] != '/',
    ensures
        parent_spec(part_path_spec(p, tag)) == parent_spec(p),
        is_part_spec(part_path_spec(p, tag)),
{
    let x = seq!['.'] + tag + seq!['.', 'p', 'a', 'r', 't'];
    let n = p.1.last() + x;
    let q = (p.0, p.1.update(p.1.len() - 1, n));
    lemma_join_parts_extend(p.1, x);
    assert(display_spec(p) + x == display_spec(q));
    assert(display_spec(p) + seq!['.'] + tag + seq!['.', 'p', 'a', 'r', 't'] == display_spec(p) + x);
    assert(plain_component(p.1[p.1.len() - 1]));
    assert forall|i: int| 0 <= i < q.1.len() implies plain_component(#[trigger] q.1[i]) && (q.1[i] == seq!['.']
        ==> !q.0 && i == 0) by {
        if i == p.1.len() - 1 {
            assert(q.1[i] == n);
            assert forall|k: int| 0 <= k < n.len() implies n[k] != '/' by {
                if k >= p.1.last().len() + 1 && k < p.1.last().len() + 1 + tag.len() {
                    assert(n[k] == tag[k - p.1.last().len() - 1]);
                } else if k < p.1.last().len() {
                    assert(n[k] == p.1.last()[k]);
                }
            }
            assert(n.len() > 1);
            assert(n != seq!['.']);
        } else {
            assert(q.1[i] == p.1[i]);
        }
    }
    lemma_display_parse(q);
    assert(q.1.drop_last() == p.1.drop_last());
    let m = n.len() as int;
    assert(n[m - 1] == 't' && n[m - 2] == 'r' && n[m - 3] == 'a' && n[m - 4] == 'p' && n[m - 5] == '.');
    assert(n.drop_last().drop_last().drop_last().drop_last() == n.take(m - 4));
    assert(last_dot(n.take(m - 4)) == m - 5);
    assert(last_dot(n.take(m - 3)) == m - 5) by {
        assert(n.take(m - 3).drop_last() == n.take(m - 4));
    }
    assert(last_dot(n.take(m - 2)) == m - 5) by {
        assert(n.take(m - 2).drop_last() == n.take(m - 3));
    }
    assert(last_dot(n.take(m - 1)) == m - 5) by {
        assert(n.take(m - 1).drop_last() == n.take(m - 2));
    }
    assert(last_dot(n) == m - 5) by {
        assert(n.drop_last() == n.take(m - 1));
    }
    assert(n != seq!['.'] && n != seq!['.', '.']);
    assert(n.skip(m - 4) == seq!['p', 'a', 'r', 't']);
}

/// Whether the sweep removes an entry that is not walked into: a `.part`
/// older than a day.
pub open spec fn removes(p: PathModel, age: Option<u64>) -> bool {
    is_part_spec(p) && (age matches Some(a) && a > MAX_SWEEP_AGE_SECS)
}

/// A sweep in progress: leftover `.part` files older than a day, in the save
/// directory and the folders under it down to the depth a received folder can
/// reach, opening at most `MAX_SWEEP_DIRS` directories.
pub struct Sweep {
    /// Directories it may still open.
    pub budget: usize,
    /// Entries waiting to be looked at, with the depth of their folder; the
    /// last is next.
    pub stack: Vec<(SweepEntry, usize)>,
    /// The directory to list next, and its depth.
    pub wanted: Option<(FsPath, usize)>,
}

/// A sweep of `dir`, started. Drive it with `next_dir` and `feed`, removing
/// what each feed names.
pub fn sweep_stale_parts(dir: &FsPath) -> (s: Sweep)
    ensures
        s.budget == MAX_SWEEP_DIRS - 1,
        s.stack@.len() == 0,
        s.wanted matches Some(x) && x.0@ == dir@ && x.1 == 1,
{
    Sweep { budget: MAX_SWEEP_DIRS - 1, stack: Vec::new(), wanted: Some((dir.duplicate(), 1)) }
}

/// Whether `p` names a partial file.
fn is_part(p: &FsPath) -> (r: bool)
    ensures
        r == is_part_spec(p@),
{
    match path_extension(p) {
        Some(x) => {
            let r = x.len() == 4 && x[0] == 'p' && x[1] == 'a' && x[2] == 'r' && x[3] == 't';
            if r {
                assert(x@ == seq!['p', 'a', 'r', 't']);
            } else if x.len() == 4 {
                assert(x@[0] != 'p' || x@[1] != 'a' || x@[2] != 'r' || x@[3] != 't');
            }
            r
        },
        None => false,
    }
}

/// A waiting sweep entry as the contracts see it: path, type, age, depth of
/// its folder.
pub type SweepModel = (PathModel, Option<bool>, Option<u64>, nat);

/// The model of a waiting sweep entry.
pub open spec fn sweep_model(e: (SweepEntry, usize)) -> SweepModel {
    (e.0.path@, e.0.is_dir, e.0.age_secs, e.1 as nat)
}

/// The models of the waiting sweep entries; the last is looked at first.
pub open spec fn sweep_models(v: Seq<(SweepEntry, usize)>) -> Seq<SweepModel> {
    v.map_values(|e: (SweepEntry, usize)| sweep_model(e))
}

/// A listing as waiting sweep entries at `depth`, the first row last.
pub open spec fn pushed_sweep(rows: Seq<SweepEntry>, depth: nat) -> Seq<SweepModel>
    decreases rows.len(),
{
    if rows.len() == 0 {
        Seq::empty()
    } else {
        pushed_sweep(rows.drop_first(), depth).push(
            (rows[0].path@, rows[0].is_dir, rows[0].age_secs, depth),
        )
    }
}

/// What the sweep does with its waiting entries until it needs a listing or
/// runs out: an entry of unknown type is passed over; a directory in a folder
/// above the depth cap is listed next when the budget allows (and passed over
/// when it does not); anything else is removed when it is a stale `.part`.
/// Returns the budget left, what still waits, the directory to list next, and
/// the paths removed.
pub open spec fn sweep_run(budget: nat, stack: Seq<SweepModel>, doomed: Seq<PathModel>) -> (
    nat,
    Seq<SweepModel>,
    Option<(PathModel, nat)>,
    Seq<PathModel>,
)
    decreases stack.len(),
{
    if stack.len() == 0 {
        (budget, stack, None, doomed)
    } else {
        let e = stack.last();
        let rest = stack.drop_last();
        match e.1 {
            None => sweep_run(budget, rest, doomed),
            Some(is_dir) => if is_dir && e.3 < MAX_DEPTH {
                if budget == 0 {
                    sweep_run(budget, rest, doomed)
                } else {
                    ((budget - 1) as nat, rest, Some((e.0, e.3 + 1)), doomed)
                }
            } else if removes(e.0, e.2) {
                sweep_run(budget, rest, doomed.push(e.0))
            } else {
                sweep_run(budget, rest, doomed)
            },
        }
    }
}

impl Sweep {
    /// The directory to list next; `None` once the sweep is done.
    pub fn next_dir(&self) -> (r: Option<FsPath>)
        ensures
            match r {
                Some(p) => self.wanted matches Some(x) && x.0@ == p@,
                None => self.wanted is None,
            },
    {
        match &self.wanted {
            Some(x) => Some(x.0.duplicate()),
            None => None,
        }
    }

    /// Hands over the listing of `next_dir` (`None` when it could not be
    /// read) and sweeps on until the next listing is needed, as `sweep_run`
    /// says. Returns the stale partial files to remove now.
    pub fn feed(&mut self, listing: Option<Vec<SweepEntry>>) -> (doomed: Vec<FsPath>)
        ensures
            ({
                let stack = match (old(self).wanted, listing) {
                    (Some(x), Some(rows)) => sweep_models(old(self).stack@) + pushed_sweep(rows@, x.1 as nat),
                    _ => sweep_models(old(self).stack@),
                };
                let after = sweep_run(old(self).budget as nat, stack, Seq::empty());
                &&& final(self).budget == after.0
                &&& sweep_models(final(self).stack@) == after.1
                &&& match after.2 {
                    Some(w) => final(self).wanted matches Some(x) && x.0@ == w.0 && x.1 == w.1,
                    None => final(self).wanted is None,
                }
                &&& doomed@.map_values(|p: FsPath| p@) == after.3
            }),
            forall|i: int| 0 <= i < doomed@.len() ==> is_part_spec(#[trigger] doomed@[i]@),
    {
        let mut wanted: Option<(FsPath, usize)> = None;
        std::mem::swap(&mut wanted, &mut self.wanted);
        if let Some((_, depth)) = wanted {
            if let Some(rows) = listing {
                let mut rows = rows;
                let ghost all = rows@;
                let ghost base = sweep_models(self.stack@);
                let n = rows.len();
                let mut k: usize = n;
                while k > 0
                    invariant
                        k <= n == all.len(),
                        rows@ == all.take(k as int),
                        sweep_models(self.stack@) == base + pushed_sweep(all.skip(k as int), depth as nat),
                        self.wanted is None,
                        self.budget == old(self).budget,
                    decreases k,
                {
                    let e = rows.pop().unwrap();
                    assert(e == all[k - 1]);
                    let ghost row = (e.path@, e.is_dir, e.age_secs, depth as nat);
                    let ghost before = self.stack@;
                    self.stack.push((e, depth));
                    assert(self.stack@.drop_last() == before);
                    assert(sweep_models(self.stack@) == sweep_models(before).push(row));
                    assert(all.skip(k - 1).drop_first() == all.skip(k as int));
                    assert(all.skip(k - 1)[0] == all[k - 1]);
                    assert(pushed_sweep(all.skip(k - 1), depth as nat) == pushed_sweep(all.skip(k as int), depth as nat).push(row));
                    assert(base + pushed_sweep(all.skip(k as int), depth as nat).push(row) == (base + pushed_sweep(all.skip(k as int), depth as nat)).push(row));
                    assert(all.take(k - 1) == all.take(k as int).drop_last());
                    k -= 1;
                }
                assert(all.skip(0) == all);
            }
        }
        let ghost target = sweep_run(self.budget as nat, sweep_models(self.stack@), Seq::empty());
        let mut doomed: Vec<FsPath> = Vec::new();
        assert(doomed@.map_values(|p: FsPath| p@) == Seq::<PathModel>::empty());
        while self.stack.len() > 0
            invariant_except_break
                self.wanted is None,
                sweep_run(self.budget as nat, sweep_models(self.stack@), doomed@.map_values(|p: FsPath| p@)) == target,
                forall|i: int| 0 <= i < doomed@.len() ==> is_part_spec(#[trigger] doomed@[i]@),
            ensures
                self.budget == target.0,
                sweep_models(self.stack@) == target.1,
                match target.2 {
                    Some(w) => self.wanted matches Some(x) && x.0@ == w.0 && x.1 == w.1,
                    None => self.wanted is None,
                },
                doomed@.map_values(|p: FsPath| p@) == target.3,
                forall|i: int| 0 <= i < doomed@.len() ==> is_part_spec(#[trigger] doomed@[i]@),
            decreases self.stack.len(),
        {
            let ghost before = self.stack@;
            let (e, depth) = self.stack.pop().unwrap();
            assert(self.stack@ == before.drop_last());
            assert(sweep_models(self.stack@) == sweep_models(before).drop_last());
            let is_dir = match e.is_dir {
                Some(d) => d,
                None => continue,
            };
            if is_dir && depth < MAX_DEPTH {
                if self.budget == 0 {
                    continue;
                }
                self.budget -= 1;
                self.wanted = Some((e.path, depth + 1));
                break;
            }
            let stale = match e.age_secs {
                Some(a) => a > MAX_SWEEP_AGE_SECS,
                None => false,
            };
            if is_part(&e.path) && stale {
                let ghost d = doomed@;
                let ghost pv = e.path@;
                doomed.push(e.path);
                assert(doomed@.drop_last() == d);
                assert(doomed@.map_values(|p: FsPath| p@) == d.map_values(|p: FsPath| p@).push(pv));
            }
        }
        doomed
    }
}

} // verus!
