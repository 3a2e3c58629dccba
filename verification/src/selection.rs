//! The picked files and folders of a send, keyed by path and kept in path
//! order, each path at most once.

use vstd::prelude::*;
use crate::files::is_inside_spec;
use crate::fspath::{
    compare_paths, lemma_keys_lt_irreflexive, lemma_keys_lt_total, lemma_keys_lt_transitive,
    lemma_path_key_injective, path_key, path_lt, path_views, FsPath, PathModel, PathOrder,
};
use crate::files::is_inside;

verus! {

/// What one picked row contributes to a send. A folder is walked as it is
/// picked, so the footer can total it before Start.
#[derive(Clone, Copy, PartialEq, Eq, Debug, Structural)]
pub struct Picked {
    pub bytes: u64,
    /// 1 for a file; the tree's file count for a folder.
    pub files: usize,
    pub is_dir: bool,
}

/// The picked paths with what each contributes.
pub struct Selection {
    items: Vec<(FsPath, Picked)>,
}

/// Strictly increasing in path order, so no path occurs twice.
pub open spec fn sorted(s: Seq<(PathModel, Picked)>) -> bool {
    forall|i: int, j: int| 0 <= i < j < s.len() ==> path_lt(#[trigger] s[i].0, #[trigger] s[j].0)
}

/// Whether some entry of `s` has path `k`.
pub open spec fn has_key(s: Seq<(PathModel, Picked)>, k: PathModel) -> bool {
    exists|i: int| 0 <= i < s.len() && #[trigger] s[i].0 == k
}

/// The value of the entry with path `k`.
pub open spec fn value_of(s: Seq<(PathModel, Picked)>, k: PathModel) -> Picked {
    s[choose|i: int| 0 <= i < s.len() && #[trigger] s[i].0 == k].1
}

/// The entries as a map from path to what it contributes.
pub open spec fn as_map(s: Seq<(PathModel, Picked)>) -> Map<PathModel, Picked> {
    Map::new(|k: PathModel| has_key(s, k), |k: PathModel| value_of(s, k))
}

/// Files and bytes of the entries, added up.
pub open spec fn sum_files(s: Seq<(PathModel, Picked)>) -> int
    decreases s.len(),
{
    if s.len() == 0 {
        0
    } else {
        sum_files(s.drop_last()) + s.last().1.files
    }
}

/// Bytes of the entries, added up.
pub open spec fn sum_bytes(s: Seq<(PathModel, Picked)>) -> int
    decreases s.len(),
{
    if s.len() == 0 {
        0
    } else {
        sum_bytes(s.drop_last()) + s.last().1.bytes
    }
}

/// In a sorted sequence an entry's own index is the one holding its path.
pub proof fn lemma_sorted_index(s: Seq<(PathModel, Picked)>, i: int)
    requires
        sorted(s),
        0 <= i < s.len(),
    ensures
        has_key(s, s[i].0),
        value_of(s, s[i].0) == s[i].1,
        forall|j: int| 0 <= j < s.len() && s[j].0 == s[i].0 ==> j == i,
{
    assert(s[i].0 == s[i].0);
    assert forall|j: int| 0 <= j < s.len() && s[j].0 == s[i].0 implies j == i by {
        if j < i {
            lemma_keys_lt_irreflexive(path_key(s[i].0));
        } else if j > i {
            lemma_keys_lt_irreflexive(path_key(s[i].0));
        }
    }
    let c = choose|j: int| 0 <= j < s.len() && #[trigger] s[j].0 == s[i].0;
    assert(c == i);
}

/// Dropping the last entry of a sorted list drops its path from the map.
proof fn lemma_map_drop_last(s: Seq<(PathModel, Picked)>)
    requires
        sorted(s),
        s.len() > 0,
    ensures
        sorted(s.drop_last()),
        as_map(s.drop_last()) == as_map(s).remove(s.last().0),
{
    let d = s.drop_last();
    let n = s.len() - 1;
    assert(sorted(d));
    assert forall|k: PathModel| #[trigger] has_key(d, k) <==> (has_key(s, k) && k != s[n].0) by {
        if has_key(d, k) {
            let i = choose|i: int| 0 <= i < d.len() && #[trigger] d[i].0 == k;
            assert(s[i].0 == k);
            lemma_keys_lt_irreflexive(path_key(k));
        }
        if has_key(s, k) && k != s[n].0 {
            let i = choose|i: int| 0 <= i < s.len() && #[trigger] s[i].0 == k;
            assert(i != n);
            assert(d[i].0 == k);
        }
    }
    assert forall|k: PathModel| has_key(d, k) implies #[trigger] value_of(d, k) == value_of(s, k) by {
        let i = choose|i: int| 0 <= i < d.len() && #[trigger] d[i].0 == k;
        lemma_sorted_index(d, i);
        lemma_sorted_index(s, i);
    }
    assert(as_map(d) =~= as_map(s).remove(s.last().0));
}

/// A selection's entries follow from its map: two path-ordered entry lists
/// that give the same paths the same picks are one list, so whatever is
/// stated over the entries (their totals, the first covering folder) is fixed
/// by the map alone.
pub proof fn law_entries_follow_from_the_map(a: Seq<(PathModel, Picked)>, b: Seq<(PathModel, Picked)>)
    requires
        sorted(a),
        sorted(b),
        as_map(a) == as_map(b),
    ensures
        a == b,
    decreases a.len(),
{
    if a.len() == 0 || b.len() == 0 {
        if a.len() > 0 {
            lemma_sorted_index(a, 0);
            assert(as_map(a).dom().contains(a[0].0));
        }
        if b.len() > 0 {
            lemma_sorted_index(b, 0);
            assert(as_map(b).dom().contains(b[0].0));
        }
        assert(a =~= b);
    } else {
        let la = a.len() - 1;
        let lb = b.len() - 1;
        let ka = a[la].0;
        let kb = b[lb].0;
        lemma_sorted_index(a, la);
        lemma_sorted_index(b, lb);
        assert(as_map(a).dom().contains(ka));
        assert(as_map(b).dom().contains(kb));
        let j = choose|j: int| 0 <= j < b.len() && #[trigger] b[j].0 == ka;
        let i = choose|i: int| 0 <= i < a.len() && #[trigger] a[i].0 == kb;
        lemma_keys_lt_irreflexive(path_key(ka));
        lemma_keys_lt_irreflexive(path_key(kb));
        if j < lb {
            assert(path_lt(b[j].0, b[lb].0));
            if i < la {
                assert(path_lt(a[i].0, a[la].0));
                lemma_keys_lt_transitive(path_key(ka), path_key(kb), path_key(ka));
            }
            assert(false);
        }
        assert(ka == kb);
        assert(as_map(a)[ka] == a[la].1);
        assert(as_map(b)[kb] == b[lb].1);
        lemma_map_drop_last(a);
        lemma_map_drop_last(b);
        law_entries_follow_from_the_map(a.drop_last(), b.drop_last());
        assert(a =~= a.drop_last().push(a[la]));
        assert(b =~= b.drop_last().push(b[lb]));
    }
}

impl Selection {
    /// The entries in path order.
    pub closed spec fn entries(&self) -> Seq<(PathModel, Picked)> {
        self.items@.map_values(|x: (FsPath, Picked)| (x.0@, x.1))
    }

    #[verifier::type_invariant]
    pub open spec fn well_ordered(&self) -> bool {
        sorted(self.entries())
    }

    /// The picked paths, in path order.
    pub closed spec fn paths_in_order(&self) -> Seq<PathModel> {
        self.entries().map_values(|x: (PathModel, Picked)| x.0)
    }

    /// Nothing picked.
    pub fn new() -> (s: Selection)
        ensures
            s@ == Map::<PathModel, Picked>::empty(),
            s.paths_in_order().len() == 0,
    {
        let s = Selection { items: Vec::new() };
        assert(s@ =~= Map::<PathModel, Picked>::empty());
        s
    }

    /// How many paths are picked.
    pub fn len(&self) -> (n: usize)
        ensures
            n == self.paths_in_order().len(),
            n == 0 <==> self@.dom() == Set::<PathModel>::empty(),
    {
        proof {
            use_type_invariant(self);
            if self.items.len() > 0 {
                lemma_sorted_index(self.entries(), 0);
                assert(self@.dom().contains(self.entries()[0].0));
            } else {
                assert(self@.dom() =~= Set::<PathModel>::empty());
            }
        }
        self.items.len()
    }

    /// The index of `p`'s entry.
    fn find(&self, p: &FsPath) -> (r: Option<usize>)
        ensures
            r matches Some(i) ==> i < self.entries().len() && self.entries()[i as int].0 == p@,
            r is None ==> !has_key(self.entries(), p@),
    {
        let mut i: usize = 0;
        while i < self.items.len()
            invariant
                i <= self.items.len(),
                forall|j: int| 0 <= j < i ==> self.entries()[j].0 != p@,
            decreases self.items.len() - i,
        {
            if self.items[i].0.same(p) {
                return Some(i);
            }
            i += 1;
        }
        None
    }

    /// What `p` contributes, when it is picked.
    pub fn get(&self, p: &FsPath) -> (r: Option<Picked>)
        ensures
            r == (if self@.dom().contains(p@) {
                Some(self@[p@])
            } else {
                None
            }),
    {
        proof {
            use_type_invariant(self);
        }
        match self.find(p) {
            Some(i) => {
                proof {
                    lemma_sorted_index(self.entries(), i as int);
                }
                Some(self.items[i].1)
            },
            None => None,
        }
    }

    /// Whether `p` is picked.
    pub fn contains(&self, p: &FsPath) -> (r: bool)
        ensures
            r == self@.dom().contains(p@),
    {
        self.get(p).is_some()
    }

    /// Picks `p` with value `v`, replacing what it had.
    pub fn insert(&mut self, p: FsPath, v: Picked)
        ensures
            final(self)@ == old(self)@.insert(p@, v),
            final(self).paths_in_order().len() == old(self).paths_in_order().len() + (if old(
                self,
            )@.dom().contains(p@) {
                0int
            } else {
                1int
            }),
    {
        proof {
            use_type_invariant(&*self);
        }
        let ghost s = self.entries();
        let ghost k = p@;
        match self.find(&p) {
            Some(i) => {
                proof {
                    lemma_sorted_index(s, i as int);
                }
                let mut items: Vec<(FsPath, Picked)> = Vec::new();
                std::mem::swap(&mut items, &mut self.items);
                let ghost before = items@;
                items.set(i, (p, v));
                let ghost t = items@.map_values(|x: (FsPath, Picked)| (x.0@, x.1));
                assert(t == s.update(i as int, (k, v)));
                proof {
                    lemma_replace_value(s, i as int, v);
                }
                self.items = items;
            },
            None => {
                let mut j: usize = 0;
                let n = self.items.len();
                while j < n && compare_paths(&self.items[j].0, &p) == PathOrder::Less
                    invariant
                        n == self.items.len(),
                        s == self.entries(),
                        k == p@,
                        j <= n,
                        forall|a: int| 0 <= a < j ==> path_lt(#[trigger] s[a].0, k),
                    decreases n - j,
                {
                    j += 1;
                }
                proof {
                    if j < n {
                        assert(!path_lt(s[j as int].0, k));
                        assert(s[j as int].0 != k);
                        lemma_keys_lt_total(path_key(s[j as int].0), path_key(k));
                        if path_key(s[j as int].0) == path_key(k) {
                            lemma_path_key_injective(s[j as int].0, k);
                        }
                    }
                    lemma_insert_at(s, j as int, (k, v));
                }
                let mut items: Vec<(FsPath, Picked)> = Vec::new();
                std::mem::swap(&mut items, &mut self.items);
                items.insert(j, (p, v));
                assert(items@.map_values(|x: (FsPath, Picked)| (x.0@, x.1)) == s.insert(
                    j as int,
                    (k, v),
                ));
                self.items = items;
            },
        }
    }

    /// Gives `p` back; what it contributed, if it was picked.
    pub fn remove(&mut self, p: &FsPath) -> (r: Option<Picked>)
        ensures
            r == (if old(self)@.dom().contains(p@) {
                Some(old(self)@[p@])
            } else {
                None
            }),
            final(self)@ == old(self)@.remove(p@),
            r is None ==> *final(self) == *old(self),
            final(self).paths_in_order().len() == old(self).paths_in_order().len() - (if r is Some {
                1int
            } else {
                0int
            }),
    {
        proof {
            use_type_invariant(&*self);
        }
        let ghost s = self.entries();
        match self.find(p) {
            Some(i) => {
                proof {
                    lemma_sorted_index(s, i as int);
                    lemma_remove_at(s, i as int);
                }
                let mut items: Vec<(FsPath, Picked)> = Vec::new();
                std::mem::swap(&mut items, &mut self.items);
                let (_, picked) = items.remove(i);
                assert(items@.map_values(|x: (FsPath, Picked)| (x.0@, x.1)) == s.remove(i as int));
                self.items = items;
                Some(picked)
            },
            None => {
                assert(as_map(s).remove(p@) =~= as_map(s));
                None
            },
        }
    }

    /// Gives back every entry strictly inside `dir`.
    pub fn retain_outside(&mut self, dir: &FsPath)
        ensures
            final(self)@ == old(self)@.restrict(
                old(self)@.dom().filter(|k: PathModel| !is_inside_spec(dir@, k)),
            ),
    {
        proof {
            use_type_invariant(&*self);
        }
        let ghost s = self.entries();
        let mut out: Vec<(FsPath, Picked)> = Vec::new();
        let mut i: usize = 0;
        let n = self.items.len();
        while i < n
            invariant
                n == self.items.len(),
                s == self.entries(),
                i <= n,
                out@.map_values(|x: (FsPath, Picked)| (x.0@, x.1)) == keep_outside(
                    s.subrange(0, i as int),
                    dir@,
                ),
            decreases n - i,
        {
            let ghost o = out@;
            assert(s.subrange(0, i + 1).drop_last() == s.subrange(0, i as int));
            assert(s.subrange(0, i + 1).last() == s[i as int]);
            if !is_inside(dir, &self.items[i].0) {
                let path = self.items[i].0.duplicate();
                let picked = self.items[i].1;
                out.push((path, picked));
                assert(out@.drop_last() == o);
                assert(out@.map_values(|x: (FsPath, Picked)| (x.0@, x.1)) == o.map_values(
                    |x: (FsPath, Picked)| (x.0@, x.1),
                ).push((path@, picked)));
            }
            i += 1;
        }
        assert(s.subrange(0, n as int) == s);
        proof {
            lemma_keep_outside(s, dir@);
            let t = keep_outside(s, dir@);
            assert forall|kk: PathModel| has_key(t, kk) implies #[trigger] value_of(t, kk)
                == value_of(s, kk) by {
                let a = choose|a: int| 0 <= a < t.len() && #[trigger] t[a].0 == kk;
                lemma_sorted_index(t, a);
                let b = choose|b: int| 0 <= b < s.len() && #[trigger] s[b].0 == kk;
                lemma_sorted_index(s, b);
                lemma_keep_outside_from(s, dir@, a);
            }
            assert(as_map(t) =~= as_map(s).restrict(
                as_map(s).dom().filter(|k: PathModel| !is_inside_spec(dir@, k)),
            ));
        }
        self.items = out;
    }

    /// The picked paths, in path order.
    pub fn paths(&self) -> (r: Vec<FsPath>)
        ensures
            path_views(r@) == self.paths_in_order(),
            forall|k: PathModel| path_views(r@).contains(k) <==> self@.dom().contains(k),
            forall|a: int, b: int| 0 <= a < b < r@.len() ==> path_lt(#[trigger] r@[a]@, #[trigger] r@[b]@),
    {
        let mut r: Vec<FsPath> = Vec::new();
        let mut i: usize = 0;
        while i < self.items.len()
            invariant
                i <= self.items.len(),
                path_views(r@) == self.paths_in_order().subrange(0, i as int),
            decreases self.items.len() - i,
        {
            let ghost before = r@;
            let p = self.items[i].0.duplicate();
            r.push(p);
            assert(r@.drop_last() == before);
            assert(path_views(r@) == path_views(before).push(p@));
            assert(self.paths_in_order().subrange(0, i + 1) == self.paths_in_order().subrange(
                0,
                i as int,
            ).push(self.paths_in_order()[i as int]));
            i += 1;
        }
        assert(self.paths_in_order().subrange(0, self.items.len() as int) == self.paths_in_order());
        proof {
            use_type_invariant(self);
            let e = self.entries();
            assert forall|k: PathModel| path_views(r@).contains(k) <==> self@.dom().contains(k) by {
                if path_views(r@).contains(k) {
                    let i = choose|i: int| 0 <= i < path_views(r@).len() && path_views(r@)[i] == k;
                    assert(e[i].0 == k);
                }
                if self@.dom().contains(k) {
                    let j = choose|j: int| 0 <= j < e.len() && #[trigger] e[j].0 == k;
                    assert(path_views(r@)[j] == k);
                }
            }
            assert forall|a: int, b: int| 0 <= a < b < r@.len() implies path_lt(#[trigger] r@[a]@, #[trigger] r@[b]@) by {
                assert(path_views(r@)[a] == e[a].0);
                assert(path_views(r@)[b] == e[b].0);
            }
        }
        r
    }

    /// The picked folders, in path order.
    pub fn folder_paths(&self) -> (r: Vec<FsPath>)
        ensures
            forall|i: int| 0 <= i < r@.len() ==> self@.dom().contains(#[trigger] r@[i]@) && self@[r@[i]@].is_dir,
            forall|k: PathModel| self@.dom().contains(k) && self@[k].is_dir ==> path_views(r@).contains(k),
    {
        proof {
            use_type_invariant(self);
        }
        let mut r: Vec<FsPath> = Vec::new();
        let ghost mut src: Seq<int> = Seq::empty();
        let mut i: usize = 0;
        while i < self.items.len()
            invariant
                i <= self.items.len(),
                sorted(self.entries()),
                src.len() == r@.len(),
                forall|a: int| 0 <= a < src.len() ==> 0 <= #[trigger] src[a] < i && self.entries()[src[a]].0 == r@[a]@ && self.entries()[src[a]].1.is_dir,
                forall|b: int| 0 <= b < i && #[trigger] self.entries()[b].1.is_dir ==> path_views(r@).contains(self.entries()[b].0),
            decreases self.items.len() - i,
        {
            let ghost before = r@;
            if self.items[i].1.is_dir {
                let p = self.items[i].0.duplicate();
                r.push(p);
                proof {
                    src = src.push(i as int);
                    assert(path_views(r@) == path_views(before).push(p@));
                    assert forall|b: int| 0 <= b < i + 1 && #[trigger] self.entries()[b].1.is_dir implies path_views(r@).contains(self.entries()[b].0) by {
                        if b < i {
                            let a = choose|a: int| 0 <= a < before.len() && #[trigger] path_views(before)[a] == self.entries()[b].0;
                            assert(path_views(r@)[a] == self.entries()[b].0);
                        } else {
                            assert(path_views(r@)[r@.len() - 1] == self.entries()[b].0);
                        }
                    }
                }
            }
            i += 1;
        }
        proof {
            assert forall|a: int| 0 <= a < r@.len() implies self@.dom().contains(#[trigger] r@[a]@) && self@[r@[a]@].is_dir by {
                lemma_sorted_index(self.entries(), src[a]);
            }
            assert forall|k: PathModel| self@.dom().contains(k) && self@[k].is_dir implies path_views(r@).contains(k) by {
                let b = choose|b: int| 0 <= b < self.entries().len() && #[trigger] self.entries()[b].0 == k;
                lemma_sorted_index(self.entries(), b);
                assert(self.entries()[b].1.is_dir);
            }
        }
        r
    }

    /// The picked paths, each with what it contributes, in path order.
    pub open spec fn entries_view(&self) -> Seq<(PathModel, Picked)> {
        self.entries()
    }

    /// Files and bytes of the whole selection, each added up to the limit of
    /// its type.
    pub open spec fn totals_spec(&self) -> (usize, u64) {
        (
            (if sum_files(self.entries()) <= usize::MAX {
                sum_files(self.entries())
            } else {
                usize::MAX as int
            }) as usize,
            (if sum_bytes(self.entries()) <= u64::MAX {
                sum_bytes(self.entries())
            } else {
                u64::MAX as int
            }) as u64,
        )
    }

    /// The first picked folder, in path order, whose tree holds `p`.
    pub fn covering(&self, p: &FsPath) -> (r: Option<FsPath>)
        ensures
            match covering_index(self.entries(), p@) {
                Some(i) => r matches Some(f) && f@ == self.entries()[i].0,
                None => r is None,
            },
            r is Some <==> held_by_picked_folder(self@, p@),
            r matches Some(f) ==> self@.dom().contains(f@) && self@[f@].is_dir && is_inside_spec(f@, p@),
            sorted(self.entries_view()),
    {
        proof {
            use_type_invariant(self);
            let e = self.entries();
            if covering_index(e, p@) is Some {
                let i = choose|i: int| 0 <= i < e.len() && is_covering(e, i, p@);
                lemma_sorted_index(e, i);
                assert(self@.dom().contains(e[i].0));
                assert(self@[e[i].0] == e[i].1);
                assert(held_by_picked_folder(self@, p@));
            }
            if held_by_picked_folder(self@, p@) {
                let k = choose|k: PathModel| self@.dom().contains(k) && self@[k].is_dir && is_inside_spec(k, p@);
                let j = choose|j: int| 0 <= j < e.len() && #[trigger] e[j].0 == k;
                lemma_sorted_index(e, j);
                assert(is_covering(e, j, p@));
            }
            assert(covering_index(e, p@) is Some <==> held_by_picked_folder(self@, p@));
        }
        let mut i: usize = 0;
        while i < self.items.len()
            invariant
                i <= self.items.len(),
                forall|j: int| 0 <= j < i ==> !is_covering(self.entries(), j, p@),
                covering_index(self.entries(), p@) is Some <==> held_by_picked_folder(self@, p@),
                sorted(self.entries()),
            decreases self.items.len() - i,
        {
            if self.items[i].1.is_dir && is_inside(&self.items[i].0, p) {
                assert(is_covering(self.entries(), i as int, p@));
                proof {
                    let c = choose|c: int|
                        0 <= c < self.entries().len() && is_covering(self.entries(), c, p@)
                            && forall|j: int| 0 <= j < c ==> !is_covering(self.entries(), j, p@);
                    assert(c == i) by {
                        if c < i {
                        } else if c > i {
                        }
                    }
                    lemma_sorted_index(self.entries(), i as int);
                }
                return Some(self.items[i].0.duplicate());
            }
            i += 1;
        }
        None
    }

    /// Files and bytes of the whole selection, each added up to the limit of
    /// its type.
    pub fn totals(&self) -> (r: (usize, u64))
        ensures
            r.0 == (if sum_files(self.entries()) <= usize::MAX {
                sum_files(self.entries())
            } else {
                usize::MAX as int
            }),
            r.1 == (if sum_bytes(self.entries()) <= u64::MAX {
                sum_bytes(self.entries())
            } else {
                u64::MAX as int
            }),
            sorted(self.entries_view()),
    {
        proof {
            use_type_invariant(self);
        }
        let mut files: usize = 0;
        let mut bytes: u64 = 0;
        let mut i: usize = 0;
        while i < self.items.len()
            invariant
                i <= self.items.len(),
                files == (if sum_files(self.entries().take(i as int)) <= usize::MAX {
                    sum_files(self.entries().take(i as int))
                } else {
                    usize::MAX as int
                }),
                bytes == (if sum_bytes(self.entries().take(i as int)) <= u64::MAX {
                    sum_bytes(self.entries().take(i as int))
                } else {
                    u64::MAX as int
                }),
            decreases self.items.len() - i,
        {
            let p = self.items[i].1;
            assert(self.entries().take(i + 1).drop_last() == self.entries().take(i as int));
            assert(self.entries().take(i + 1).last() == self.entries()[i as int]);
            proof {
                lemma_sums_nonneg(self.entries().take(i as int));
            }
            files = files.saturating_add(p.files);
            bytes = bytes.saturating_add(p.bytes);
            i += 1;
        }
        assert(self.entries().take(self.items.len() as int) == self.entries());
        (files, bytes)
    }
}

impl View for Selection {
    type V = Map<PathModel, Picked>;

    open spec fn view(&self) -> Map<PathModel, Picked> {
        as_map(self.entries())
    }
}


/// Replacing the value of an entry keeps the order and maps its path to the
/// new value.
proof fn lemma_replace_value(s: Seq<(PathModel, Picked)>, i: int, v: Picked)
    requires
        sorted(s),
        0 <= i < s.len(),
    ensures
        sorted(s.update(i, (s[i].0, v))),
        as_map(s.update(i, (s[i].0, v))) == as_map(s).insert(s[i].0, v),
{
    let t = s.update(i, (s[i].0, v));
    assert forall|a: int, b: int| 0 <= a < b < t.len() implies path_lt(#[trigger] t[a].0, #[trigger] t[b].0) by {
        assert(t[a].0 == s[a].0);
        assert(t[b].0 == s[b].0);
    }
    let k = s[i].0;
    assert forall|kk: PathModel| #[trigger] has_key(t, kk) == (has_key(s, kk) || kk == k) by {
        if has_key(s, kk) {
            let j = choose|j: int| 0 <= j < s.len() && #[trigger] s[j].0 == kk;
            assert(t[j].0 == kk);
        }
        if has_key(t, kk) {
            let j = choose|j: int| 0 <= j < t.len() && #[trigger] t[j].0 == kk;
            assert(s[j].0 == kk);
        }
        if kk == k {
            assert(t[i].0 == kk);
        }
    }
    assert forall|kk: PathModel| has_key(t, kk) implies #[trigger] value_of(t, kk) == (if kk == k {
        v
    } else {
        value_of(s, kk)
    }) by {
        let j = choose|j: int| 0 <= j < t.len() && #[trigger] t[j].0 == kk;
        lemma_sorted_index(t, j);
        lemma_sorted_index(s, j);
        if kk == k {
            assert(j == i);
        }
    }
    assert(as_map(t) =~= as_map(s).insert(k, v));
}

/// Inserting an entry for a new path at its place in the order keeps the order
/// and adds the path to the map.
proof fn lemma_insert_at(s: Seq<(PathModel, Picked)>, j: int, e: (PathModel, Picked))
    requires
        sorted(s),
        0 <= j <= s.len(),
        !has_key(s, e.0),
        forall|a: int| 0 <= a < j ==> path_lt(#[trigger] s[a].0, e.0),
        j < s.len() ==> path_lt(e.0, s[j].0),
    ensures
        sorted(s.insert(j, e)),
        as_map(s.insert(j, e)) == as_map(s).insert(e.0, e.1),
{
    let t = s.insert(j, e);
    assert forall|a: int, b: int| 0 <= a < b < t.len() implies path_lt(#[trigger] t[a].0, #[trigger] t[b].0) by {
        if b < j {
            assert(t[a] == s[a] && t[b] == s[b]);
        } else if b == j {
            assert(t[a] == s[a]);
        } else if a < j {
            assert(t[a] == s[a] && t[b] == s[b - 1]);
            assert(path_lt(s[j].0, s[b - 1].0) || j == b - 1);
            lemma_keys_lt_transitive(path_key(s[a].0), path_key(e.0), path_key(s[j].0));
            if j < b - 1 {
                lemma_keys_lt_transitive(path_key(s[a].0), path_key(s[j].0), path_key(s[b - 1].0));
            }
        } else if a == j {
            assert(t[b] == s[b - 1]);
            if j < b - 1 {
                lemma_keys_lt_transitive(path_key(e.0), path_key(s[j].0), path_key(s[b - 1].0));
            }
        } else {
            assert(t[a] == s[a - 1] && t[b] == s[b - 1]);
        }
    }
    assert forall|kk: PathModel| #[trigger] has_key(t, kk) == (has_key(s, kk) || kk == e.0) by {
        if has_key(s, kk) {
            let a = choose|a: int| 0 <= a < s.len() && #[trigger] s[a].0 == kk;
            if a < j {
                assert(t[a].0 == kk);
            } else {
                assert(t[a + 1].0 == kk);
            }
        }
        if has_key(t, kk) {
            let a = choose|a: int| 0 <= a < t.len() && #[trigger] t[a].0 == kk;
            if a < j {
                assert(s[a].0 == kk);
            } else if a > j {
                assert(s[a - 1].0 == kk);
            }
        }
        if kk == e.0 {
            assert(t[j].0 == kk);
        }
    }
    assert forall|kk: PathModel| has_key(t, kk) implies #[trigger] value_of(t, kk) == (if kk == e.0 {
        e.1
    } else {
        value_of(s, kk)
    }) by {
        let a = choose|a: int| 0 <= a < t.len() && #[trigger] t[a].0 == kk;
        lemma_sorted_index(t, a);
        if a < j {
            lemma_sorted_index(s, a);
        } else if a > j {
            lemma_sorted_index(s, a - 1);
        }
    }
    assert(as_map(t) =~= as_map(s).insert(e.0, e.1));
}

/// Removing an entry keeps the order and drops its path from the map.
proof fn lemma_remove_at(s: Seq<(PathModel, Picked)>, i: int)
    requires
        sorted(s),
        0 <= i < s.len(),
    ensures
        sorted(s.remove(i)),
        as_map(s.remove(i)) == as_map(s).remove(s[i].0),
{
    let t = s.remove(i);
    lemma_sorted_index(s, i);
    assert forall|a: int, b: int| 0 <= a < b < t.len() implies path_lt(#[trigger] t[a].0, #[trigger] t[b].0) by {
        let a2 = if a < i { a } else { a + 1 };
        let b2 = if b < i { b } else { b + 1 };
        assert(t[a] == s[a2] && t[b] == s[b2]);
    }
    let k = s[i].0;
    assert forall|kk: PathModel| #[trigger] has_key(t, kk) == (has_key(s, kk) && kk != k) by {
        if has_key(s, kk) && kk != k {
            let a = choose|a: int| 0 <= a < s.len() && #[trigger] s[a].0 == kk;
            if a < i {
                assert(t[a].0 == kk);
            } else {
                assert(a != i);
                assert(t[a - 1].0 == kk);
            }
        }
        if has_key(t, kk) {
            let a = choose|a: int| 0 <= a < t.len() && #[trigger] t[a].0 == kk;
            let a2 = if a < i { a } else { a + 1 };
            assert(s[a2].0 == kk);
            assert(a2 != i);
        }
    }
    assert forall|kk: PathModel| has_key(t, kk) implies #[trigger] value_of(t, kk) == value_of(s, kk) by {
        let a = choose|a: int| 0 <= a < t.len() && #[trigger] t[a].0 == kk;
        lemma_sorted_index(t, a);
        let a2 = if a < i { a } else { a + 1 };
        assert(t[a] == s[a2]);
        lemma_sorted_index(s, a2);
    }
    assert(as_map(t) =~= as_map(s).remove(k));
}


/// Whether a picked folder of `sel` holds `p`.
pub open spec fn held_by_picked_folder(sel: Map<PathModel, Picked>, p: PathModel) -> bool {
    exists|k: PathModel| sel.dom().contains(k) && sel[k].is_dir && is_inside_spec(k, p)
}

/// No pick lies inside a picked folder: a folder carries its own tree.
pub open spec fn picks_apart(sel: Map<PathModel, Picked>) -> bool {
    forall|a: PathModel, b: PathModel|
        #![trigger sel[a], sel.dom().contains(b)]
        sel.dom().contains(a) && sel.dom().contains(b) && sel[a].is_dir ==> !is_inside_spec(a, b)
}

/// Whether entry `i` is a picked folder whose tree holds `p`.
pub open spec fn is_covering(sel: Seq<(PathModel, Picked)>, i: int, p: PathModel) -> bool {
    sel[i].1.is_dir && is_inside_spec(sel[i].0, p)
}

/// The first picked folder (in path order) whose tree holds `p`.
pub open spec fn covering_index(sel: Seq<(PathModel, Picked)>, p: PathModel) -> Option<int> {
    if exists|i: int| 0 <= i < sel.len() && is_covering(sel, i, p) {
        Some(
            choose|i: int|
                0 <= i < sel.len() && is_covering(sel, i, p) && forall|j: int|
                    0 <= j < i ==> !is_covering(sel, j, p),
        )
    } else {
        None
    }
}

/// The entries whose paths are not strictly inside `dir`, in order.
pub open spec fn keep_outside(s: Seq<(PathModel, Picked)>, dir: PathModel) -> Seq<(PathModel, Picked)>
    decreases s.len(),
{
    if s.len() == 0 {
        s
    } else {
        let sub = keep_outside(s.drop_last(), dir);
        if !is_inside_spec(dir, s.last().0) {
            sub.push(s.last())
        } else {
            sub
        }
    }
}

/// Every kept entry is an entry of `s`.
proof fn lemma_keep_outside_from(s: Seq<(PathModel, Picked)>, dir: PathModel, a: int)
    requires
        0 <= a < keep_outside(s, dir).len(),
    ensures
        exists|b: int| 0 <= b < s.len() && #[trigger] s[b] == keep_outside(s, dir)[a],
    decreases s.len(),
{
    let sub = keep_outside(s.drop_last(), dir);
    if a < sub.len() {
        lemma_keep_outside_from(s.drop_last(), dir, a);
        let b = choose|b: int| 0 <= b < s.drop_last().len() && #[trigger] s.drop_last()[b] == sub[a];
        assert(s[b] == s.drop_last()[b]);
    } else {
        assert(s[s.len() - 1] == keep_outside(s, dir)[a]);
    }
}

/// What `keep_outside` keeps: exactly the paths not inside `dir`, in order.
proof fn lemma_keep_outside(s: Seq<(PathModel, Picked)>, dir: PathModel)
    requires
        sorted(s),
    ensures
        sorted(keep_outside(s, dir)),
        forall|kk: PathModel| #[trigger] has_key(keep_outside(s, dir), kk) == (has_key(s, kk) && !is_inside_spec(dir, kk)),
    decreases s.len(),
{
    if s.len() > 0 {
        let rest = s.drop_last();
        assert(sorted(rest)) by {
            assert forall|i: int, j: int| 0 <= i < j < rest.len() implies path_lt(#[trigger] rest[i].0, #[trigger] rest[j].0) by {
                assert(rest[i] == s[i] && rest[j] == s[j]);
            }
        }
        lemma_keep_outside(rest, dir);
        let sub = keep_outside(rest, dir);
        let t = keep_outside(s, dir);
        if !is_inside_spec(dir, s.last().0) {
            assert forall|i: int, j: int| 0 <= i < j < t.len() implies path_lt(#[trigger] t[i].0, #[trigger] t[j].0) by {
                if j == t.len() - 1 {
                    lemma_keep_outside_from(rest, dir, i);
                    let b = choose|b: int| 0 <= b < rest.len() && #[trigger] rest[b] == sub[i];
                    assert(s[b] == rest[b]);
                    assert(t[i] == sub[i]);
                } else {
                    assert(t[i] == sub[i] && t[j] == sub[j]);
                }
            }
        }
        assert forall|kk: PathModel| #[trigger] has_key(t, kk) == (has_key(s, kk) && !is_inside_spec(dir, kk)) by {
            if has_key(s, kk) && !is_inside_spec(dir, kk) {
                let a = choose|a: int| 0 <= a < s.len() && #[trigger] s[a].0 == kk;
                if a < s.len() - 1 {
                    assert(rest[a].0 == kk);
                    assert(has_key(sub, kk));
                    let c = choose|c: int| 0 <= c < sub.len() && #[trigger] sub[c].0 == kk;
                    assert(t[c].0 == kk);
                } else {
                    assert(t[t.len() - 1].0 == kk);
                }
            }
            if has_key(t, kk) {
                let c = choose|c: int| 0 <= c < t.len() && #[trigger] t[c].0 == kk;
                if c < sub.len() {
                    assert(sub[c].0 == kk);
                    assert(has_key(sub, kk));
                    let a = choose|a: int| 0 <= a < rest.len() && #[trigger] rest[a].0 == kk;
                    assert(s[a].0 == kk);
                } else {
                    assert(s[s.len() - 1].0 == kk);
                }
            }
        }
    }
}

proof fn lemma_sums_nonneg(s: Seq<(PathModel, Picked)>)
    ensures
        sum_files(s) >= 0,
        sum_bytes(s) >= 0,
    decreases s.len(),
{
    if s.len() > 0 {
        lemma_sums_nonneg(s.drop_last());
    }
}

} // verus!
