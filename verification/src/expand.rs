//! What a set of picked sources expands to for a send. The picks are put in
//! path order with duplicates dropped; a pick inside a picked folder is left
//! to that folder's walk; a file is sent under its own name and a folder is
//! walked, its files named by their path below the folder's parent.

use vstd::prelude::*;
use crate::files::{
    base_name, base_name_spec, is_inside, is_inside_spec, DirEntry, PathMeta, SendList,
};
use crate::fspath::{
    compare_paths, lemma_keys_lt_transitive, path_key, path_lt, FsPath, PathModel, PathOrder,
};
use crate::walk::{fed, file_models, pending_models, wanted_is, FileModel, Walk};

verus! {

/// A picked path with what the disk said of it: its metadata, or why that
/// could not be read.
pub struct Source {
    pub path: FsPath,
    pub meta: Result<PathMeta, String>,
}

/// What one source adds to a send.
pub enum Planned {
    /// A file, sent under `name`.
    File { path: FsPath, name: String, size: u64 },
    /// A folder, walked.
    Folder { path: FsPath },
}

/// A source as the contracts see it: its path and its metadata or the error
/// message.
pub type SourceModel = (PathModel, Result<PathMeta, Seq<char>>);

/// A planned item as the contracts see it: path, whether a folder, the name
/// a file is sent under, its size.
pub type PlanModel = (PathModel, bool, Seq<char>, u64);

/// The model of a source.
pub open spec fn source_model(s: Source) -> SourceModel {
    (
        s.path@,
        match s.meta {
            Ok(m) => Ok(m),
            Err(e) => Err(e@),
        },
    )
}

/// The models of sources.
pub open spec fn source_models(v: Seq<Source>) -> Seq<SourceModel> {
    v.map_values(|s: Source| source_model(s))
}

/// The model of a planned item.
pub open spec fn plan_model(p: Planned) -> PlanModel {
    match p {
        Planned::File { path, name, size } => (path@, false, name@, size),
        Planned::Folder { path } => (path@, true, Seq::empty(), 0),
    }
}

/// The models of a plan.
pub open spec fn plan_models(v: Seq<Planned>) -> Seq<PlanModel> {
    v.map_values(|p: Planned| plan_model(p))
}

/// Strictly increasing in path order, so no path occurs twice.
pub open spec fn strictly_sorted(s: Seq<SourceModel>) -> bool {
    forall|i: int, j: int| 0 <= i < j < s.len() ==> path_lt(#[trigger] s[i].0, #[trigger] s[j].0)
}

/// Whether some source has path `p`.
pub open spec fn has_path(s: Seq<SourceModel>, p: PathModel) -> bool {
    exists|i: int| 0 <= i < s.len() && #[trigger] s[i].0 == p
}

/// What the first source with path `p` says of it.
pub open spec fn first_meta(s: Seq<SourceModel>, p: PathModel) -> Option<Result<PathMeta, Seq<char>>>
    decreases s.len(),
{
    if s.len() == 0 {
        None
    } else {
        match first_meta(s.drop_last(), p) {
            Some(m) => Some(m),
            None => if s.last().0 == p {
                Some(s.last().1)
            } else {
                None
            },
        }
    }
}

/// Whether the source `x` is a folder that holds `p`.
pub open spec fn folder_holds(x: SourceModel, p: PathModel) -> bool {
    match x.1 {
        Ok(m) => m.is_dir && is_inside_spec(x.0, p),
        Err(_) => false,
    }
}

/// Whether a picked folder holds `p`.
pub open spec fn covered(picked: Seq<SourceModel>, p: PathModel) -> bool {
    exists|j: int| 0 <= j < picked.len() && folder_holds(#[trigger] picked[j], p)
}

/// The plan for the picks `s`, whose folders are those of `all`: picks a
/// picked folder holds are left out; the first other pick whose metadata
/// could not be read fails the plan with its error; a folder is walked; a
/// file goes under its own name.
pub open spec fn plan_spec(s: Seq<SourceModel>, all: Seq<SourceModel>) -> Result<Seq<PlanModel>, Seq<char>>
    decreases s.len(),
{
    if s.len() == 0 {
        Ok(Seq::empty())
    } else {
        match plan_spec(s.drop_last(), all) {
            Err(e) => Err(e),
            Ok(p) => {
                let x = s.last();
                if covered(all, x.0) {
                    Ok(p)
                } else {
                    match x.1 {
                        Err(e) => Err(e),
                        Ok(m) => Ok(
                            p.push(
                                if m.is_dir {
                                    (x.0, true, Seq::empty(), 0u64)
                                } else {
                                    (x.0, false, base_name_spec(x.0), m.len)
                                },
                            ),
                        ),
                    }
                }
            },
        }
    }
}

/// The planned items from `at` on, taken until a folder needs walking:
/// files join the list, a folder is listed next under its own name. Returns
/// the files, where the plan stands, and the folder to list.
pub open spec fn take_plan(files: Seq<FileModel>, plan: Seq<PlanModel>, at: int) -> (
    Seq<FileModel>,
    int,
    Option<(PathModel, Seq<char>, nat)>,
)
    decreases plan.len() - at,
{
    if at < 0 || at >= plan.len() {
        (files, at, None)
    } else {
        let x = plan[at];
        if x.1 {
            (files, at + 1, Some((x.0, base_name_spec(x.0), 1)))
        } else {
            take_plan(files.push((x.0, x.2, x.3)), plan, at + 1)
        }
    }
}

proof fn lemma_path_lt_transitive(a: PathModel, b: PathModel, c: PathModel)
    requires
        path_lt(a, b),
        path_lt(b, c),
    ensures
        path_lt(a, c),
{
    lemma_keys_lt_transitive(path_key(a), path_key(b), path_key(c));
}

proof fn lemma_first_meta_some(s: Seq<SourceModel>, p: PathModel)
    ensures
        first_meta(s, p) is Some <==> has_path(s, p),
        first_meta(s, p) matches Some(m) ==> exists|i: int| 0 <= i < s.len() && #[trigger] s[i] == (p, m),
    decreases s.len(),
{
    if s.len() > 0 {
        lemma_first_meta_some(s.drop_last(), p);
        if has_path(s, p) {
            let i = choose|i: int| 0 <= i < s.len() && #[trigger] s[i].0 == p;
            if i < s.len() - 1 {
                assert(s.drop_last()[i].0 == p);
            }
        }
        if has_path(s.drop_last(), p) {
            let i = choose|i: int| 0 <= i < s.drop_last().len() && #[trigger] s.drop_last()[i].0 == p;
            assert(s[i].0 == p);
        }
        match first_meta(s.drop_last(), p) {
            Some(m) => {
                let i = choose|i: int| 0 <= i < s.drop_last().len() && #[trigger] s.drop_last()[i] == (p, m);
                assert(s[i] == (p, m));
            },
            None => {},
        }
        if first_meta(s.drop_last(), p) is None && s.last().0 == p {
            assert(s[s.len() - 1] == (p, s.last().1));
        }
    }
}

impl Source {
    /// A copy of this source.
    pub fn duplicate(&self) -> (r: Source)
        ensures
            source_model(r) == source_model(*self),
    {
        Source {
            path: self.path.duplicate(),
            meta: match &self.meta {
                Ok(m) => Ok(*m),
                Err(e) => Err(e.clone()),
            },
        }
    }
}

/// Whether some source in `s` has the path `p`.
fn has_source(s: &Vec<Source>, p: &FsPath) -> (r: bool)
    ensures
        r == has_path(source_models(s@), p@),
{
    let mut i: usize = 0;
    while i < s.len()
        invariant
            i <= s.len(),
            forall|a: int| 0 <= a < i ==> (#[trigger] source_models(s@)[a]).0 != p@,
        decreases s.len() - i,
    {
        if s[i].path.same(p) {
            assert(source_models(s@)[i as int].0 == p@);
            return true;
        }
        i += 1;
    }
    false
}

/// `s` with `x`, whose path it does not hold, put in path order; returns
/// where it went.
fn insert_source(s: &mut Vec<Source>, x: Source) -> (j: usize)
    requires
        strictly_sorted(source_models(old(s)@)),
        !has_path(source_models(old(s)@), x.path@),
    ensures
        j <= old(s)@.len(),
        source_models(final(s)@) == source_models(old(s)@).insert(j as int, source_model(x)),
        strictly_sorted(source_models(final(s)@)),
{
    let ghost m = source_models(s@);
    let mut j: usize = 0;
    while j < s.len() && compare_paths(&s[j].path, &x.path) == PathOrder::Less
        invariant
            j <= s.len(),
            m == source_models(s@),
            forall|a: int| 0 <= a < j ==> path_lt(#[trigger] m[a].0, x.path@),
        decreases s.len() - j,
    {
        j += 1;
    }
    proof {
        if j < s.len() {
            assert(m[j as int].0 != x.path@);
            assert(path_lt(x.path@, m[j as int].0));
        }
    }
    let ghost mx = source_model(x);
    s.insert(j, x);
    proof {
        let t = source_models(s@);
        assert(t == m.insert(j as int, mx));
        assert forall|a: int, b: int| 0 <= a < b < t.len() implies path_lt(#[trigger] t[a].0, #[trigger] t[b].0) by {
            if b < j {
                assert(t[a] == m[a] && t[b] == m[b]);
            } else if b == j {
                assert(t[a] == m[a]);
            } else if a == j {
                assert(t[b] == m[b - 1]);
                if b - 1 > j {
                    lemma_path_lt_transitive(x.path@, m[j as int].0, m[b - 1].0);
                }
            } else if a < j {
                assert(t[a] == m[a] && t[b] == m[b - 1]);
            } else {
                assert(t[a] == m[a - 1] && t[b] == m[b - 1]);
            }
        }
    }
    j
}

/// The sources in path order, each path once, with what its first occurrence
/// says of it.
pub open spec fn picks_of(sources: Seq<SourceModel>, picked: Seq<SourceModel>) -> bool {
    &&& strictly_sorted(picked)
    &&& forall|p: PathModel| has_path(picked, p) <==> has_path(sources, p)
    &&& forall|i: int| 0 <= i < picked.len() ==> first_meta(sources, (#[trigger] picked[i]).0) == Some(picked[i].1)
}

/// The picked sources in path order, each path once with what its first
/// occurrence says of it: `Path`'s sort and dedup.
pub fn pick_sources(sources: &Vec<Source>) -> (r: Vec<Source>)
    ensures
        picks_of(source_models(sources@), source_models(r@)),
{
    let ghost all = source_models(sources@);
    let mut r: Vec<Source> = Vec::new();
    let mut i: usize = 0;
    while i < sources.len()
        invariant
            i <= sources.len(),
            all == source_models(sources@),
            picks_of(all.take(i as int), source_models(r@)),
        decreases sources.len() - i,
    {
        let x = sources[i].duplicate();
        let ghost before = source_models(r@);
        let ghost pre = all.take(i as int);
        let ghost post = all.take(i + 1);
        assert(post.drop_last() == pre);
        assert(post.last() == source_model(x));
        proof {
            assert forall|q: PathModel| has_path(pre, q) implies first_meta(post, q) == first_meta(pre, q) by {
                lemma_first_meta_some(pre, q);
            }
            assert forall|q: PathModel| has_path(post, q) <==> (has_path(pre, q) || q == x.path@) by {
                if has_path(post, q) && !has_path(pre, q) {
                    let k = choose|k: int| 0 <= k < post.len() && #[trigger] post[k].0 == q;
                    if k < pre.len() {
                        assert(pre[k].0 == q);
                    }
                }
                if has_path(pre, q) {
                    let k = choose|k: int| 0 <= k < pre.len() && #[trigger] pre[k].0 == q;
                    assert(post[k].0 == q);
                }
                if q == x.path@ {
                    assert(post[post.len() - 1].0 == q);
                }
            }
        }
        if !has_source(&r, &x.path) {
            proof {
                assert(!has_path(pre, x.path@));
                lemma_first_meta_some(pre, x.path@);
                assert(first_meta(post, x.path@) == Some(source_model(x).1));
            }
            let j = insert_source(&mut r, x);
            proof {
                let t = source_models(r@);
                assert forall|q: PathModel| has_path(t, q) <==> has_path(post, q) by {
                    if has_path(t, q) {
                        let k = choose|k: int| 0 <= k < t.len() && #[trigger] t[k].0 == q;
                        if k < j {
                            assert(before[k].0 == q);
                        } else if k > j {
                            assert(before[k - 1].0 == q);
                        }
                    }
                    if has_path(before, q) {
                        let k = choose|k: int| 0 <= k < before.len() && #[trigger] before[k].0 == q;
                        if k < j {
                            assert(t[k].0 == q);
                        } else {
                            assert(t[k + 1].0 == q);
                        }
                    }
                    if q == x.path@ {
                        assert(t[j as int].0 == q);
                    }
                }
                assert forall|a: int| 0 <= a < t.len() implies first_meta(post, (#[trigger] t[a]).0) == Some(t[a].1) by {
                    if a < j {
                        assert(t[a] == before[a]);
                        assert(has_path(before, before[a].0));
                    } else if a > j {
                        assert(t[a] == before[a - 1]);
                        assert(has_path(before, before[a - 1].0));
                    }
                }
            }
        } else {
            proof {
                assert forall|a: int| 0 <= a < before.len() implies first_meta(post, (#[trigger] before[a]).0) == Some(before[a].1) by {
                    assert(has_path(before, before[a].0));
                }
            }
        }
        i += 1;
    }
    assert(all.take(sources.len() as int) == all);
    r
}

/// Whether a picked folder holds `p`.
fn is_covered(picked: &Vec<Source>, p: &FsPath) -> (r: bool)
    ensures
        r == covered(source_models(picked@), p@),
{
    let ghost m = source_models(picked@);
    let mut j: usize = 0;
    while j < picked.len()
        invariant
            j <= picked.len(),
            m == source_models(picked@),
            forall|a: int| 0 <= a < j ==> !folder_holds(#[trigger] m[a], p@),
        decreases picked.len() - j,
    {
        let hit = match &picked[j].meta {
            Ok(x) => x.is_dir && is_inside(&picked[j].path, p),
            Err(_) => false,
        };
        if hit {
            assert(folder_holds(m[j as int], p@));
            return true;
        }
        j += 1;
    }
    false
}

/// The plan for the picks: those a picked folder holds are left out, the
/// first other one whose metadata could not be read fails it with its
/// error, a folder is walked and a file goes under its own name.
pub fn plan_sources(picked: &Vec<Source>) -> (r: Result<Vec<Planned>, String>)
    ensures
        match plan_spec(source_models(picked@), source_models(picked@)) {
            Ok(p) => r matches Ok(v) && plan_models(v@) == p,
            Err(e) => r matches Err(m) && m@ == e,
        },
{
    let ghost all = source_models(picked@);
    let mut plan: Vec<Planned> = Vec::new();
    let mut i: usize = 0;
    assert(all.take(0).len() == 0);
    assert(plan_models(plan@) == Seq::<PlanModel>::empty());
    while i < picked.len()
        invariant
            i <= picked.len(),
            all == source_models(picked@),
            plan_spec(all.take(i as int), all) == Ok::<Seq<PlanModel>, Seq<char>>(plan_models(plan@)),
        decreases picked.len() - i,
    {
        let ghost before = plan@;
        assert(all.take(i + 1).drop_last() == all.take(i as int));
        assert(all.take(i + 1).last() == all[i as int]);
        let x = &picked[i];
        if !is_covered(picked, &x.path) {
            match &x.meta {
                Err(e) => {
                    proof {
                        lemma_plan_err_sticks(all, i as int + 1, e@);
                    }
                    return Err(e.clone());
                },
                Ok(m) => {
                    if m.is_dir {
                        plan.push(Planned::Folder { path: x.path.duplicate() });
                    } else {
                        plan.push(Planned::File { path: x.path.duplicate(), name: base_name(&x.path), size: m.len });
                    }
                    assert(plan@.drop_last() == before);
                    assert(plan_models(plan@) == plan_models(before).push(plan_model(plan@.last())));
                },
            }
        }
        i += 1;
    }
    assert(all.take(picked.len() as int) == all);
    Ok(plan)
}

proof fn lemma_plan_err_sticks(all: Seq<SourceModel>, i: int, e: Seq<char>)
    requires
        0 <= i <= all.len(),
        plan_spec(all.take(i), all) == Err::<Seq<PlanModel>, Seq<char>>(e),
    ensures
        plan_spec(all, all) == Err::<Seq<PlanModel>, Seq<char>>(e),
    decreases all.len() - i,
{
    if i < all.len() {
        assert(all.take(i + 1).drop_last() == all.take(i));
        lemma_plan_err_sticks(all, i + 1, e);
    } else {
        assert(all.take(i) == all);
    }
}

proof fn lemma_plan_prefix(s: Seq<SourceModel>, all: Seq<SourceModel>)
    requires
        strictly_sorted(s),
    ensures
        plan_spec(s, all) matches Ok(p) ==> {
            &&& forall|i: int|
                0 <= i < p.len() ==> !covered(all, #[trigger] p[i].0) && exists|k: int| 0 <= k < s.len() && s[k].0 == p[i].0
            &&& forall|i: int, j: int| 0 <= i < j < p.len() ==> path_lt(#[trigger] p[i].0, #[trigger] p[j].0)
        },
    decreases s.len(),
{
    if s.len() > 0 {
        let init = s.drop_last();
        assert(strictly_sorted(init)) by {
            assert forall|i: int, j: int| 0 <= i < j < init.len() implies path_lt(#[trigger] init[i].0, #[trigger] init[j].0) by {
                assert(init[i] == s[i] && init[j] == s[j]);
            }
        }
        lemma_plan_prefix(init, all);
        match plan_spec(init, all) {
            Ok(q) => {
                let x = s.last();
                if !covered(all, x.0) && x.1 is Ok {
                    let p = plan_spec(s, all)->Ok_0;
                    assert(p.drop_last() == q);
                    assert forall|i: int| 0 <= i < p.len() implies !covered(all, #[trigger] p[i].0) && exists|k: int|
                        0 <= k < s.len() && s[k].0 == p[i].0 by {
                        if i < q.len() {
                            assert(p[i] == q[i]);
                            let k = choose|k: int| 0 <= k < init.len() && init[k].0 == q[i].0;
                            assert(s[k] == init[k]);
                        } else {
                            assert(s[s.len() - 1].0 == p[i].0);
                        }
                    }
                    assert forall|i: int, j: int| 0 <= i < j < p.len() implies path_lt(#[trigger] p[i].0, #[trigger] p[j].0) by {
                        if j < q.len() {
                            assert(p[i] == q[i] && p[j] == q[j]);
                        } else {
                            assert(p[i] == q[i]);
                            let k = choose|k: int| 0 <= k < init.len() && init[k].0 == q[i].0;
                            assert(s[k] == init[k]);
                            assert(path_lt(s[k].0, s[s.len() - 1].0));
                        }
                    }
                }
            },
            Err(_) => {},
        }
    }
}

/// Nothing is sent twice: every planned item is a pick that no picked folder
/// holds, and the plan goes in strict path order, so no path comes twice.
pub proof fn law_plan_sends_nothing_twice(picked: Seq<SourceModel>)
    requires
        strictly_sorted(picked),
    ensures
        plan_spec(picked, picked) matches Ok(p) ==> {
            &&& forall|i: int| 0 <= i < p.len() ==> !covered(picked, #[trigger] p[i].0) && has_path(picked, p[i].0)
            &&& forall|i: int, j: int| 0 <= i < j < p.len() ==> p[i].0 != p[j].0
        },
{
    lemma_plan_prefix(picked, picked);
    match plan_spec(picked, picked) {
        Ok(p) => {
            assert forall|i: int, j: int| 0 <= i < j < p.len() implies p[i].0 != p[j].0 by {
                assert(path_lt(p[i].0, p[j].0));
                crate::fspath::lemma_keys_lt_irreflexive(path_key(p[i].0));
            }
            assert forall|i: int| 0 <= i < p.len() implies has_path(picked, #[trigger] p[i].0) by {
                let k = choose|k: int| 0 <= k < picked.len() && picked[k].0 == p[i].0;
            }
        },
        Err(_) => {},
    }
}

/// A send's expansion in progress: the walk of the folder being listed (its
/// list holds every file so far) and the plan, taken from `at` on.
pub struct Expansion {
    pub walk: Walk,
    pub plan: Vec<Planned>,
    pub at: usize,
}

impl Expansion {
    /// The expansion's invariant: the walk's; a walk waiting for nothing has
    /// nothing on its stack and has used up the plan.
    pub open spec fn wf(&self) -> bool {
        &&& self.walk.wf()
        &&& self.at <= self.plan@.len()
        &&& self.walk.wanted is None ==> self.walk.stack@.len() == 0 && self.at == self.plan@.len()
    }

    /// Starts on a plan: files before its first folder join the list at once.
    pub fn start(plan: Vec<Planned>) -> (x: Expansion)
        ensures
            x.wf(),
            x.plan == plan,
            ({
                let t = take_plan(Seq::empty(), plan_models(plan@), 0);
                &&& file_models(x.walk.list.files@) == t.0
                &&& x.at == t.1
                &&& wanted_is(x.walk.wanted, t.2)
                &&& !x.walk.list.partial
                &&& x.walk.stack@.len() == 0
            }),
    {
        let mut x = Expansion {
            walk: Walk { list: SendList::new(), stack: Vec::new(), wanted: None },
            plan,
            at: 0,
        };
        assert(file_models(x.walk.list.files@) == Seq::<FileModel>::empty());
        x.take_files();
        x
    }

    /// Takes planned items until a folder needs walking or the plan runs out.
    fn take_files(&mut self)
        requires
            old(self).walk.wf(),
            old(self).walk.wanted is None,
            old(self).walk.stack@.len() == 0,
            old(self).at <= old(self).plan@.len(),
        ensures
            final(self).wf(),
            final(self).plan == old(self).plan,
            final(self).walk.list.partial == old(self).walk.list.partial,
            final(self).walk.stack@.len() == 0,
            ({
                let t = take_plan(file_models(old(self).walk.list.files@), plan_models(old(self).plan@), old(self).at as int);
                &&& file_models(final(self).walk.list.files@) == t.0
                &&& final(self).at == t.1
                &&& wanted_is(final(self).walk.wanted, t.2)
            }),
    {
        let ghost target = take_plan(file_models(self.walk.list.files@), plan_models(self.plan@), self.at as int);
        while self.at < self.plan.len()
            invariant_except_break
                self.walk.wanted is None,
                take_plan(file_models(self.walk.list.files@), plan_models(self.plan@), self.at as int) == target,
            invariant
                self.walk.wf(),
                self.at <= self.plan@.len(),
                self.plan == old(self).plan,
                self.walk.list.partial == old(self).walk.list.partial,
                self.walk.stack@.len() == 0,
            ensures
                file_models(self.walk.list.files@) == target.0,
                self.at == target.1,
                wanted_is(self.walk.wanted, target.2),
                self.walk.wanted is None ==> self.at == self.plan@.len(),
            decreases self.plan@.len() - self.at,
        {
            let k = self.at;
            let ghost pm = plan_models(self.plan@);
            assert(pm[k as int] == plan_model(self.plan@[k as int]));
            match &self.plan[k] {
                Planned::Folder { path } => {
                    let name = base_name(path);
                    self.walk.wanted = Some((path.duplicate(), name, 1));
                    self.at = k + 1;
                    break;
                },
                Planned::File { path, name, size } => {
                    let ghost old_files = self.walk.list.files@;
                    let ghost fm = file_models(old_files);
                    let p = path.duplicate();
                    let n = name.clone();
                    let z = *size;
                    self.walk.list.push(p, n, z);
                    assert(self.walk.list.files@.drop_last() == old_files);
                    assert(file_models(self.walk.list.files@) == fm.push((path@, name@, z)));
                    assert(file_models(self.walk.list.files@).drop_last() == fm);
                    self.at = k + 1;
                },
            }
        }
    }

    /// The folder to list next; `None` once the expansion is done.
    pub fn next_dir(&self) -> (r: Option<FsPath>)
        ensures
            match r {
                Some(p) => self.walk.wanted matches Some(x) && x.0@ == p@,
                None => self.walk.wanted is None,
            },
    {
        self.walk.next_dir()
    }

    /// Hands over the listing of `next_dir` (or why it could not be read)
    /// and goes on: the walk runs until it needs another listing, and once
    /// it is done the plan's next items are taken.
    pub fn feed(&mut self, listing: Result<Vec<DirEntry>, String>)
        requires
            old(self).wf(),
        ensures
            final(self).wf(),
            final(self).plan == old(self).plan,
            ({
                let after = fed(old(self).walk, listing);
                &&& final(self).walk.list.partial == after.1
                &&& match after.3 {
                    Some(w) => {
                        &&& file_models(final(self).walk.list.files@) == after.0
                        &&& pending_models(final(self).walk.stack@) == after.2
                        &&& wanted_is(final(self).walk.wanted, Some(w))
                        &&& final(self).at == old(self).at
                    },
                    None => {
                        let t = take_plan(after.0, plan_models(old(self).plan@), old(self).at as int);
                        &&& file_models(final(self).walk.list.files@) == t.0
                        &&& final(self).at == t.1
                        &&& wanted_is(final(self).walk.wanted, t.2)
                        &&& final(self).walk.stack@.len() == 0
                    },
                }
            }),
    {
        self.walk.feed(listing);
        proof {
            lemma_fed_done(old(self).walk, listing);
        }
        if self.walk.wanted.is_none() {
            self.take_files();
        }
    }

    /// The list once the expansion is done.
    pub fn finish(self) -> (l: SendList)
        ensures
            l == self.walk.list,
    {
        self.walk.list
    }
}

proof fn lemma_fed_done(w: Walk, listing: Result<Vec<DirEntry>, String>)
    ensures
        fed(w, listing).3 is None ==> fed(w, listing).2.len() == 0,
{
    let (files, partial, stack) = match w.wanted {
        None => (file_models(w.list.files@), w.list.partial, pending_models(w.stack@)),
        Some(x) => match listing {
            Err(_) => (file_models(w.list.files@), true, pending_models(w.stack@)),
            Ok(rows) => (
                file_models(w.list.files@),
                w.list.partial,
                pending_models(w.stack@) + crate::walk::pushed_rows(rows@, x.1@, x.2 as nat),
            ),
        },
    };
    crate::walk::lemma_run_done(files, partial, stack);
}

/// The expansion of picked sources: put in path order with duplicates
/// dropped, planned, and started. Fails with the error of the first pick
/// (in path order) outside every picked folder whose metadata could not be
/// read.
pub fn expand_sources(sources: &Vec<Source>) -> (r: Result<Expansion, String>)
    ensures
        exists|picked: Seq<SourceModel>| {
            &&& #[trigger] picks_of(source_models(sources@), picked)
            &&& match plan_spec(picked, picked) {
                Ok(p) => r matches Ok(x) && plan_models(x.plan@) == p && x.wf() && ({
                    let t = take_plan(Seq::empty(), p, 0);
                    &&& file_models(x.walk.list.files@) == t.0
                    &&& x.at == t.1
                    &&& wanted_is(x.walk.wanted, t.2)
                    &&& !x.walk.list.partial
                    &&& x.walk.stack@.len() == 0
                }),
                Err(e) => r matches Err(m) && m@ == e,
            }
        },
{
    let picked = pick_sources(sources);
    let plan = plan_sources(&picked);
    match plan {
        Ok(p) => Ok(Expansion::start(p)),
        Err(e) => Err(e),
    }
}

} // verus!
