//! A filesystem path as the transfer code sees it: whether it starts at the
//! root, and its components. `.` stays only where it leads a relative path and
//! `..` is kept as written, so two paths are equal exactly when their
//! components are.

use vstd::prelude::*;
use crate::text::{
    chars_of, is_sep, lemma_segments_concat, lemma_segments_single, segments, split, string_of, views,
    Separators,
};

verus! {

/// A path, held as its components.
pub struct FsPath {
    /// Starts at the root directory.
    pub absolute: bool,
    /// The components after the root, in order.
    pub parts: Vec<String>,
}

/// The character sequences of a list of strings.
pub open spec fn part_views(v: Seq<String>) -> Seq<Seq<char>> {
    v.map_values(|x: String| x@)
}

/// The paths of a list of paths.
pub open spec fn path_views(v: Seq<FsPath>) -> Seq<PathModel> {
    v.map_values(|p: FsPath| p@)
}

/// What a path is: rooted or not, and its components.
pub type PathModel = (bool, Seq<Seq<char>>);

impl View for FsPath {
    type V = PathModel;

    open spec fn view(&self) -> PathModel {
        (self.absolute, part_views(self.parts@))
    }
}

/// The segments of a split that are components: empty ones go, and so does
/// `.` except where it is the very first segment.
pub open spec fn kept_components(segs: Seq<Seq<char>>) -> Seq<Seq<char>>
    decreases segs.len(),
{
    if segs.len() == 0 {
        Seq::empty()
    } else {
        let rest = kept_components(segs.drop_last());
        let last = segs.last();
        if last.len() == 0 || (last == seq!['.'] && segs.len() > 1) {
            rest
        } else {
            rest.push(last)
        }
    }
}

/// The path a string names, as `std::path::Path::components` reads it.
pub open spec fn parse_spec(s: Seq<char>) -> PathModel {
    (s.len() > 0 && s[0] == '/', kept_components(segments(s, Separators::Slash)))
}

/// Components joined by `/`.
pub open spec fn join_parts(parts: Seq<Seq<char>>) -> Seq<char>
    decreases parts.len(),
{
    if parts.len() == 0 {
        Seq::empty()
    } else if parts.len() == 1 {
        parts[0]
    } else {
        join_parts(parts.drop_last()) + seq!['/'] + parts.last()
    }
}

/// The text of a path: `/` for the root, then the components joined by `/`.
pub open spec fn display_spec(p: PathModel) -> Seq<char> {
    if p.0 {
        seq!['/'] + join_parts(p.1)
    } else {
        join_parts(p.1)
    }
}

/// `Path::join`: an absolute `name` replaces the path, an empty path takes
/// `name` as it is, and anything else goes on after a separator.
pub open spec fn join_spec(p: PathModel, name: Seq<char>) -> PathModel {
    if name.len() > 0 && name[0] == '/' {
        parse_spec(name)
    } else if display_spec(p).len() == 0 {
        parse_spec(name)
    } else {
        parse_spec(display_spec(p) + seq!['/'] + name)
    }
}

/// `Path::starts_with`: `base`'s components lead `p`'s.
pub open spec fn starts_with_spec(p: PathModel, base: PathModel) -> bool {
    p.0 == base.0 && base.1.len() <= p.1.len() && p.1.subrange(0, base.1.len() as int) == base.1
}

/// `Path::parent`: the path without its last component; none for the root or
/// an empty path.
pub open spec fn parent_spec(p: PathModel) -> Option<PathModel> {
    if p.1.len() == 0 {
        None
    } else {
        Some((p.0, p.1.drop_last()))
    }
}

/// `Path::file_name`: the last component when it is a name, not `.` or `..`.
pub open spec fn file_name_spec(p: PathModel) -> Option<Seq<char>> {
    if p.1.len() == 0 || p.1.last() == seq!['.'] || p.1.last() == seq!['.', '.'] {
        None
    } else {
        Some(p.1.last())
    }
}

/// A component as a path holds it after parsing: not empty, and no `/`.
pub open spec fn plain_component(c: Seq<char>) -> bool {
    &&& c.len() > 0
    &&& forall|i: int| 0 <= i < c.len() ==> c[i] != '/'
}

/// A path as parsing leaves one: plain components, and `.` only where it
/// leads a relative path.
pub open spec fn plain_path(p: PathModel) -> bool {
    forall|i: int|
        0 <= i < p.1.len() ==> plain_component(#[trigger] p.1[i]) && (p.1[i] == seq!['.'] ==> !p.0 && i == 0)
}

/// Components none of which is `.`.
pub open spec fn dot_free(parts: Seq<Seq<char>>) -> bool {
    forall|i: int| 0 <= i < parts.len() ==> #[trigger] parts[i] != seq!['.']
}

proof fn lemma_join_parts_start(parts: Seq<Seq<char>>)
    requires
        parts.len() > 0,
        parts[0].len() > 0,
    ensures
        join_parts(parts).len() > 0,
        join_parts(parts)[0] == parts[0][0],
    decreases parts.len(),
{
    if parts.len() > 1 {
        lemma_join_parts_start(parts.drop_last());
    }
}

proof fn lemma_join_parts_segments(parts: Seq<Seq<char>>)
    requires
        parts.len() > 0,
        forall|i: int| 0 <= i < parts.len() ==> plain_component(#[trigger] parts[i]),
    ensures
        segments(join_parts(parts), Separators::Slash) == parts,
    decreases parts.len(),
{
    let last = parts.last();
    assert(plain_component(parts[parts.len() - 1]));
    assert forall|i: int| 0 <= i < last.len() implies !is_sep(#[trigger] last[i], Separators::Slash) by {}
    lemma_segments_single(last, Separators::Slash);
    if parts.len() > 1 {
        let init = parts.drop_last();
        assert forall|i: int| 0 <= i < init.len() implies plain_component(#[trigger] init[i]) by {
            assert(init[i] == parts[i]);
        }
        lemma_join_parts_segments(init);
        lemma_segments_concat(join_parts(init), '/', last, Separators::Slash);
        assert(init + seq![last] == parts);
    } else {
        assert(seq![parts[0]] == parts);
    }
}

proof fn lemma_kept_plain(empties: nat, parts: Seq<Seq<char>>)
    requires
        forall|i: int| 0 <= i < parts.len() ==> plain_component(#[trigger] parts[i]),
        forall|i: int| 0 <= i < parts.len() && #[trigger] parts[i] == seq!['.'] ==> empties == 0 && i == 0,
    ensures
        kept_components(Seq::new(empties, |i: int| Seq::<char>::empty()) + parts) == parts,
    decreases parts.len(), empties,
{
    let lead = Seq::new(empties, |i: int| Seq::<char>::empty());
    let segs = lead + parts;
    if parts.len() == 0 {
        assert(segs == lead);
        if empties > 0 {
            let shorter = Seq::new((empties - 1) as nat, |i: int| Seq::<char>::empty());
            assert(segs.drop_last() == shorter + Seq::<Seq<char>>::empty());
            lemma_kept_plain((empties - 1) as nat, parts);
            assert(segs.last().len() == 0);
        }
    } else {
        let init = parts.drop_last();
        assert forall|i: int| 0 <= i < init.len() implies plain_component(#[trigger] init[i]) by {
            assert(init[i] == parts[i]);
        }
        assert forall|i: int| 0 <= i < init.len() && #[trigger] init[i] == seq!['.'] implies empties == 0 && i == 0 by {
            assert(init[i] == parts[i]);
        }
        lemma_kept_plain(empties, init);
        assert(segs.drop_last() == lead + init);
        assert(plain_component(parts[parts.len() - 1]));
        assert(segs.last() == parts.last());
        if parts.last() == seq!['.'] {
            assert(parts[parts.len() - 1] == seq!['.']);
            assert(segs.len() == 1);
        }
        assert(init.push(parts.last()) == parts);
    }
}

proof fn lemma_kept_components_plain(segs: Seq<Seq<char>>)
    requires
        forall|i: int, j: int| 0 <= i < segs.len() && 0 <= j < segs[i].len() ==> #[trigger] segs[i][j] != '/',
    ensures
        forall|i: int| 0 <= i < kept_components(segs).len() ==> plain_component(#[trigger] kept_components(segs)[i]),
        forall|i: int|
            0 <= i < kept_components(segs).len() && #[trigger] kept_components(segs)[i] == seq!['.'] ==> i == 0
                && segs[0] == seq!['.'],
    decreases segs.len(),
{
    if segs.len() > 0 {
        let init = segs.drop_last();
        assert forall|i: int, j: int| 0 <= i < init.len() && 0 <= j < init[i].len() implies #[trigger] init[i][j] != '/' by {
            assert(init[i] == segs[i]);
        }
        lemma_kept_components_plain(init);
        let rest = kept_components(init);
        let last = segs.last();
        if !(last.len() == 0 || (last == seq!['.'] && segs.len() > 1)) {
            let k = rest.push(last);
            assert forall|i: int| 0 <= i < k.len() implies plain_component(#[trigger] k[i]) by {
                if i < rest.len() {
                    assert(k[i] == rest[i]);
                } else {
                    assert forall|j: int| 0 <= j < last.len() implies last[j] != '/' by {
                        assert(segs[segs.len() - 1][j] == last[j]);
                    }
                }
            }
            assert forall|i: int| 0 <= i < k.len() && #[trigger] k[i] == seq!['.'] implies i == 0 && segs[0] == seq!['.'] by {
                if i < rest.len() {
                    assert(k[i] == rest[i]);
                    assert(init[0] == segs[0]);
                } else {
                    assert(segs.len() == 1);
                    assert(rest.len() == 0) by {
                        assert(init.len() == 0);
                    }
                }
            }
        } else {
            assert forall|i: int| 0 <= i < rest.len() && #[trigger] rest[i] == seq!['.'] implies i == 0 && segs[0] == seq!['.'] by {
                assert(init[0] == segs[0]);
            }
        }
    }
}

/// Every path read from text is plain: its components are not empty and
/// hold no `/`, and `.` only leads a relative path.
pub proof fn lemma_parsed_paths_are_plain(s: Seq<char>)
    ensures
        plain_path(parse_spec(s)),
{
    let segs = segments(s, Separators::Slash);
    crate::text::lemma_segments_have_no_separator(s, Separators::Slash);
    crate::text::lemma_segments_nonempty(s, Separators::Slash);
    assert forall|i: int, j: int| 0 <= i < segs.len() && 0 <= j < segs[i].len() implies #[trigger] segs[i][j] != '/' by {
        assert(!is_sep(segs[i][j], Separators::Slash));
    }
    lemma_kept_components_plain(segs);
    if s.len() > 0 && s[0] == '/' {
        lemma_first_segment_empty(s);
    }
}

proof fn lemma_first_segment_empty(s: Seq<char>)
    requires
        s.len() > 0,
        s[0] == '/',
    ensures
        segments(s, Separators::Slash)[0].len() == 0,
{
    assert(s == Seq::<char>::empty() + seq!['/'] + s.skip(1));
    lemma_segments_concat(Seq::<char>::empty(), '/', s.skip(1), Separators::Slash);
}

/// Reading a plain path's text gives the path back.
pub proof fn lemma_display_parse(p: PathModel)
    requires
        plain_path(p),
    ensures
        parse_spec(display_spec(p)) == p,
{
    let t = display_spec(p);
    if p.0 {
        if p.1.len() == 0 {
            assert(t == seq!['/']);
            assert(t == Seq::<char>::empty() + seq!['/'] + Seq::<char>::empty());
            lemma_segments_concat(Seq::<char>::empty(), '/', Seq::<char>::empty(), Separators::Slash);
            assert(segments(t, Separators::Slash) == Seq::new(2, |i: int| Seq::<char>::empty()) + p.1);
            lemma_kept_plain(2, p.1);
        } else {
            assert(t == Seq::<char>::empty() + seq!['/'] + join_parts(p.1));
            lemma_segments_concat(Seq::<char>::empty(), '/', join_parts(p.1), Separators::Slash);
            lemma_join_parts_segments(p.1);
            assert(segments(t, Separators::Slash) == Seq::new(1, |i: int| Seq::<char>::empty()) + p.1);
            lemma_kept_plain(1, p.1);
        }
    } else {
        if p.1.len() == 0 {
            assert(t == Seq::<char>::empty());
            assert(segments(t, Separators::Slash) == Seq::new(1, |i: int| Seq::<char>::empty()) + p.1);
            lemma_kept_plain(1, p.1);
        } else {
            assert(plain_component(p.1[0]));
            lemma_join_parts_start(p.1);
            lemma_join_parts_segments(p.1);
            assert(segments(t, Separators::Slash) == Seq::new(0, |i: int| Seq::<char>::empty()) + p.1);
            lemma_kept_plain(0, p.1);
        }
    }
}

/// Joining the text of a relative plain path onto a plain path appends its
/// components, as `Path::join` does.
pub proof fn lemma_join_plain(dir: PathModel, rel: PathModel)
    requires
        plain_path(dir),
        plain_path(rel),
        dot_free(rel.1),
        !rel.0,
        rel.1.len() > 0,
    ensures
        join_spec(dir, display_spec(rel)) == (dir.0, dir.1 + rel.1),
{
    let name = display_spec(rel);
    assert(plain_component(rel.1[0]));
    lemma_join_parts_start(rel.1);
    lemma_join_parts_segments(rel.1);
    assert(name[0] != '/');
    let shown = display_spec(dir);
    if shown.len() == 0 {
        assert(dir.1.len() == 0) by {
            if dir.1.len() > 0 {
                assert(plain_component(dir.1[0]));
                lemma_join_parts_start(dir.1);
            }
        }
        assert(dir.1 + rel.1 == rel.1);
        assert(!dir.0);
        assert(segments(name, Separators::Slash) == Seq::new(0, |i: int| Seq::<char>::empty()) + rel.1);
        lemma_kept_plain(0, rel.1);
    } else {
        let t = shown + seq!['/'] + name;
        lemma_segments_concat(shown, '/', name, Separators::Slash);
        assert forall|i: int| 0 <= i < (dir.1 + rel.1).len() implies plain_component(#[trigger] (dir.1 + rel.1)[i])
            && ((dir.1 + rel.1)[i] == seq!['.'] ==> !dir.0 && i == 0) by {
            if i < dir.1.len() {
                assert((dir.1 + rel.1)[i] == dir.1[i]);
            } else {
                assert((dir.1 + rel.1)[i] == rel.1[i - dir.1.len()]);
                assert(rel.1[i - dir.1.len()] != seq!['.']);
            }
        }
        if dir.0 {
            if dir.1.len() == 0 {
                assert(shown == Seq::<char>::empty() + seq!['/'] + Seq::<char>::empty());
                lemma_segments_concat(Seq::<char>::empty(), '/', Seq::<char>::empty(), Separators::Slash);
                assert(segments(t, Separators::Slash) == Seq::new(2, |i: int| Seq::<char>::empty()) + (dir.1 + rel.1));
                lemma_kept_plain(2, dir.1 + rel.1);
            } else {
                assert(shown == Seq::<char>::empty() + seq!['/'] + join_parts(dir.1));
                lemma_segments_concat(Seq::<char>::empty(), '/', join_parts(dir.1), Separators::Slash);
                lemma_join_parts_segments(dir.1);
                assert(segments(t, Separators::Slash) == Seq::new(1, |i: int| Seq::<char>::empty()) + (dir.1 + rel.1));
                lemma_kept_plain(1, dir.1 + rel.1);
            }
            assert(t[0] == '/');
        } else {
            assert(dir.1.len() > 0);
            assert(plain_component(dir.1[0]));
            lemma_join_parts_start(dir.1);
            lemma_join_parts_segments(dir.1);
            assert(segments(t, Separators::Slash) == Seq::new(0, |i: int| Seq::<char>::empty()) + (dir.1 + rel.1));
            lemma_kept_plain(0, dir.1 + rel.1);
            assert(t[0] == shown[0]);
        }
    }
}

/// Character-for-character equality of two strings.
pub fn same_string(a: &String, b: &String) -> (r: bool)
    ensures
        r == (a@ == b@),
{
    a.eq(b)
}

/// Whether `v` holds exactly the characters of `s`.
pub fn chars_equal(v: &Vec<char>, s: &str) -> (r: bool)
    ensures
        r == (v@ == s@),
{
    let n = s.unicode_len();
    if v.len() != n {
        return false;
    }
    let mut i: usize = 0;
    while i < n
        invariant
            n == s@.len(),
            v.len() == n,
            i <= n,
            forall|j: int| 0 <= j < i ==> v@[j] == s@[j],
        decreases n - i,
    {
        if v[i] != s.get_char(i) {
            return false;
        }
        i += 1;
    }
    assert(v@ == s@);
    true
}

impl FsPath {
    /// The empty relative path.
    pub fn empty() -> (p: FsPath)
        ensures
            p@ == (false, Seq::<Seq<char>>::empty()),
    {
        let p = FsPath { absolute: false, parts: Vec::new() };
        assert(part_views(p.parts@) == Seq::<Seq<char>>::empty());
        p
    }

    /// The path that the text `s` names.
    pub fn parse(s: &str) -> (p: FsPath)
        ensures
            p@ == parse_spec(s@),
    {
        let cs = chars_of(s);
        let segs = split(&cs, Separators::Slash);
        let mut parts: Vec<String> = Vec::new();
        let mut i: usize = 0;
        while i < segs.len()
            invariant
                i <= segs.len(),
                views(segs@) == segments(cs@, Separators::Slash),
                part_views(parts@) == kept_components(views(segs@).subrange(0, i as int)),
            decreases segs.len() - i,
        {
            let seg = &segs[i];
            let ghost pre = views(segs@).subrange(0, i as int);
            assert(views(segs@).subrange(0, i + 1).drop_last() == pre);
            assert(views(segs@)[i as int] == seg@);
            let is_dot = seg.len() == 1 && seg[0] == '.';
            if seg.len() == 0 || (is_dot && i > 0) {
                if seg.len() == 1 {
                    assert(seg@ == seq!['.']);
                }
            } else {
                if is_dot {
                    assert(seg@ == seq!['.']);
                } else if seg.len() == 1 {
                    assert(seg@ != seq!['.']);
                }
                let part = string_of(seg);
                parts.push(part);
                assert(part_views(parts@) == part_views(parts@).drop_last().push(part@));
            }
            i += 1;
        }
        assert(views(segs@).subrange(0, segs.len() as int) == views(segs@));
        let absolute = cs.len() > 0 && cs[0] == '/';
        FsPath { absolute, parts }
    }

    /// A copy of this path.
    pub fn duplicate(&self) -> (p: FsPath)
        ensures
            p@ == self@,
    {
        let mut parts: Vec<String> = Vec::new();
        let mut i: usize = 0;
        while i < self.parts.len()
            invariant
                i <= self.parts.len(),
                part_views(parts@) == part_views(self.parts@).subrange(0, i as int),
            decreases self.parts.len() - i,
        {
            let part = self.parts[i].clone();
            let ghost before = parts@;
            parts.push(part);
            assert(parts@.drop_last() == before);
            assert(part_views(parts@) == part_views(before).push(part@));
            assert(part_views(self.parts@).subrange(0, i + 1) == part_views(self.parts@).subrange(
                0,
                i as int,
            ).push(self.parts@[i as int]@));
            i += 1;
        }
        assert(part_views(self.parts@).subrange(0, self.parts.len() as int) == part_views(
            self.parts@,
        ));
        FsPath { absolute: self.absolute, parts }
    }

    /// Whether two paths have the same components.
    pub fn same(&self, other: &FsPath) -> (r: bool)
        ensures
            r == (self@ == other@),
    {
        if self.absolute != other.absolute || self.parts.len() != other.parts.len() {
            if self.parts.len() != other.parts.len() {
                assert(part_views(self.parts@).len() != part_views(other.parts@).len());
            }
            return false;
        }
        let mut i: usize = 0;
        while i < self.parts.len()
            invariant
                self.parts.len() == other.parts.len(),
                i <= self.parts.len(),
                forall|j: int| 0 <= j < i ==> self.parts@[j]@ == other.parts@[j]@,
            decreases self.parts.len() - i,
        {
            if !same_string(&self.parts[i], &other.parts[i]) {
                assert(part_views(self.parts@)[i as int] != part_views(other.parts@)[i as int]);
                return false;
            }
            i += 1;
        }
        assert(part_views(self.parts@) == part_views(other.parts@));
        true
    }

    /// Whether `base`'s components lead this path's.
    pub fn starts_with(&self, base: &FsPath) -> (r: bool)
        ensures
            r == starts_with_spec(self@, base@),
    {
        if self.absolute != base.absolute || base.parts.len() > self.parts.len() {
            return false;
        }
        let mut i: usize = 0;
        while i < base.parts.len()
            invariant
                base.parts.len() <= self.parts.len(),
                i <= base.parts.len(),
                forall|j: int| 0 <= j < i ==> self.parts@[j]@ == base.parts@[j]@,
            decreases base.parts.len() - i,
        {
            if !same_string(&self.parts[i], &base.parts[i]) {
                assert(part_views(self.parts@).subrange(0, base.parts.len() as int)[i as int]
                    != part_views(base.parts@)[i as int]);
                return false;
            }
            i += 1;
        }
        assert(part_views(self.parts@).subrange(0, base.parts.len() as int) == part_views(
            base.parts@,
        ));
        true
    }

    /// The path without its last component.
    pub fn parent(&self) -> (r: Option<FsPath>)
        ensures
            r matches Some(p) ==> parent_spec(self@) == Some(p@),
            r is None ==> parent_spec(self@) is None,
    {
        if self.parts.len() == 0 {
            return None;
        }
        let mut p = self.duplicate();
        p.parts.pop();
        assert(part_views(p.parts@) == part_views(self.parts@).drop_last());
        Some(p)
    }

    /// The last component, when it is a name.
    pub fn file_name(&self) -> (r: Option<String>)
        ensures
            r matches Some(n) ==> file_name_spec(self@) == Some(n@),
            r is None ==> file_name_spec(self@) is None,
    {
        let n = self.parts.len();
        if n == 0 {
            return None;
        }
        let last = &self.parts[n - 1];
        let cs = chars_of(last.as_str());
        assert(part_views(self.parts@).last() == last@);
        if (cs.len() == 1 && cs[0] == '.') || (cs.len() == 2 && cs[0] == '.' && cs[1] == '.') {
            if cs.len() == 1 {
                assert(cs@ == seq!['.']);
            } else {
                assert(cs@ == seq!['.', '.']);
            }
            return None;
        }
        if cs.len() == 1 {
            assert(cs@ != seq!['.', '.']);
        }
        Some(last.clone())
    }

    /// The path's text: `/` for the root, then the components joined by `/`.
    pub fn to_path_string(&self) -> (s: String)
        ensures
            s@ == display_spec(self@),
    {
        let mut s = String::new();
        if self.absolute {
            s.push('/');
        }
        let ghost lead = s@;
        let mut i: usize = 0;
        while i < self.parts.len()
            invariant
                i <= self.parts.len(),
                lead == (if self.absolute { seq!['/'] } else { Seq::<char>::empty() }),
                s@ == lead + join_parts(part_views(self.parts@).subrange(0, i as int)),
            decreases self.parts.len() - i,
        {
            let ghost pv = part_views(self.parts@);
            assert(pv.subrange(0, i + 1).drop_last() == pv.subrange(0, i as int));
            assert(pv.subrange(0, i + 1).last() == self.parts@[i as int]@);
            if i > 0 {
                s.push('/');
            }
            s.append(self.parts[i].as_str());
            if i == 0 {
                assert(join_parts(pv.subrange(0, 1)) == pv[0]);
            } else {
                assert(lead + join_parts(pv.subrange(0, i + 1)) == lead + join_parts(
                    pv.subrange(0, i as int),
                ) + seq!['/'] + self.parts@[i as int]@);
            }
            i += 1;
        }
        assert(part_views(self.parts@).subrange(0, self.parts.len() as int) == part_views(
            self.parts@,
        ));
        s
    }

    /// `name` joined onto this path, as `Path::join` joins it.
    pub fn join(&self, name: &str) -> (p: FsPath)
        ensures
            p@ == join_spec(self@, name@),
    {
        let lead_slash = name.unicode_len() > 0 && name.get_char(0) == '/';
        if lead_slash {
            return FsPath::parse(name);
        }
        let mut text = self.to_path_string();
        if text.unicode_len() == 0 {
            return FsPath::parse(name);
        }
        let ghost shown = text@;
        text.push('/');
        text.append(name);
        assert(text@ == shown + seq!['/'] + name@);
        FsPath::parse(text.as_str())
    }
}


/// The sort key of one component, in the order `std::path::Component`
/// compares: the root, then `.`, then `..`, then names by their characters.
pub open spec fn component_key(part: Seq<char>) -> Seq<u32> {
    if part == seq!['.'] {
        seq![1u32]
    } else if part == seq!['.', '.'] {
        seq![2u32]
    } else {
        seq![3u32] + part.map_values(|c: char| c as u32)
    }
}

/// The sort key of a path: its components' keys, the root's first.
pub open spec fn path_key(p: PathModel) -> Seq<Seq<u32>> {
    let parts = p.1.map_values(|x: Seq<char>| component_key(x));
    if p.0 {
        seq![seq![0u32]] + parts
    } else {
        parts
    }
}

/// Lexicographic order on number sequences: a proper prefix comes first.
pub open spec fn key_lt(a: Seq<u32>, b: Seq<u32>) -> bool
    decreases a.len(),
{
    if a.len() == 0 {
        b.len() > 0
    } else if b.len() == 0 {
        false
    } else if a[0] != b[0] {
        a[0] < b[0]
    } else {
        key_lt(a.drop_first(), b.drop_first())
    }
}

/// Lexicographic order on sequences of keys.
pub open spec fn keys_lt(a: Seq<Seq<u32>>, b: Seq<Seq<u32>>) -> bool
    decreases a.len(),
{
    if a.len() == 0 {
        b.len() > 0
    } else if b.len() == 0 {
        false
    } else if a[0] != b[0] {
        key_lt(a[0], b[0])
    } else {
        keys_lt(a.drop_first(), b.drop_first())
    }
}

/// `std::path::Path`'s order: component by component.
pub open spec fn path_lt(a: PathModel, b: PathModel) -> bool {
    keys_lt(path_key(a), path_key(b))
}

pub proof fn lemma_key_lt_irreflexive(a: Seq<u32>)
    ensures
        !key_lt(a, a),
    decreases a.len(),
{
    if a.len() > 0 {
        lemma_key_lt_irreflexive(a.drop_first());
    }
}

pub proof fn lemma_key_lt_transitive(a: Seq<u32>, b: Seq<u32>, c: Seq<u32>)
    requires
        key_lt(a, b),
        key_lt(b, c),
    ensures
        key_lt(a, c),
    decreases a.len(),
{
    if a.len() > 0 && b.len() > 0 && c.len() > 0 && a[0] == b[0] && b[0] == c[0] {
        lemma_key_lt_transitive(a.drop_first(), b.drop_first(), c.drop_first());
    }
}

pub proof fn lemma_key_lt_total(a: Seq<u32>, b: Seq<u32>)
    ensures
        a == b || key_lt(a, b) || key_lt(b, a),
    decreases a.len(),
{
    if a.len() > 0 && b.len() > 0 && a[0] == b[0] {
        lemma_key_lt_total(a.drop_first(), b.drop_first());
        if a.drop_first() == b.drop_first() {
            assert(a == seq![a[0]] + a.drop_first());
            assert(b == seq![b[0]] + b.drop_first());
        }
    } else if a.len() == 0 && b.len() == 0 {
        assert(a == b);
    }
}

pub proof fn lemma_key_lt_asymmetric(a: Seq<u32>, b: Seq<u32>)
    requires
        key_lt(a, b),
    ensures
        !key_lt(b, a),
    decreases a.len(),
{
    if a.len() > 0 && b.len() > 0 && a[0] == b[0] {
        lemma_key_lt_asymmetric(a.drop_first(), b.drop_first());
    }
}

pub proof fn lemma_keys_lt_irreflexive(a: Seq<Seq<u32>>)
    ensures
        !keys_lt(a, a),
    decreases a.len(),
{
    if a.len() > 0 {
        lemma_keys_lt_irreflexive(a.drop_first());
    }
}

pub proof fn lemma_keys_lt_transitive(a: Seq<Seq<u32>>, b: Seq<Seq<u32>>, c: Seq<Seq<u32>>)
    requires
        keys_lt(a, b),
        keys_lt(b, c),
    ensures
        keys_lt(a, c),
    decreases a.len(),
{
    if a.len() > 0 && b.len() > 0 && c.len() > 0 {
        if a[0] == b[0] && b[0] == c[0] {
            lemma_keys_lt_transitive(a.drop_first(), b.drop_first(), c.drop_first());
        } else if a[0] != b[0] && b[0] != c[0] {
            lemma_key_lt_transitive(a[0], b[0], c[0]);
            if a[0] == c[0] {
                lemma_key_lt_asymmetric(a[0], b[0]);
            }
        }
    }
}

pub proof fn lemma_keys_lt_total(a: Seq<Seq<u32>>, b: Seq<Seq<u32>>)
    ensures
        a == b || keys_lt(a, b) || keys_lt(b, a),
    decreases a.len(),
{
    if a.len() > 0 && b.len() > 0 {
        if a[0] == b[0] {
            lemma_keys_lt_total(a.drop_first(), b.drop_first());
            if a.drop_first() == b.drop_first() {
                assert(a == seq![a[0]] + a.drop_first());
                assert(b == seq![b[0]] + b.drop_first());
            }
        } else {
            lemma_key_lt_total(a[0], b[0]);
        }
    } else if a.len() == 0 && b.len() == 0 {
        assert(a == b);
    }
}

pub proof fn lemma_keys_lt_asymmetric(a: Seq<Seq<u32>>, b: Seq<Seq<u32>>)
    requires
        keys_lt(a, b),
    ensures
        !keys_lt(b, a),
    decreases a.len(),
{
    if a.len() > 0 && b.len() > 0 {
        if a[0] == b[0] {
            lemma_keys_lt_asymmetric(a.drop_first(), b.drop_first());
        } else {
            lemma_key_lt_asymmetric(a[0], b[0]);
        }
    }
}

/// Equal keys mean equal components.
proof fn lemma_component_key_injective(a: Seq<char>, b: Seq<char>)
    requires
        component_key(a) == component_key(b),
    ensures
        a == b,
{
    let ka = component_key(a);
    let kb = component_key(b);
    let sa = a == seq!['.'] || a == seq!['.', '.'];
    let sb = b == seq!['.'] || b == seq!['.', '.'];
    if !sa && !sb {
        let ma = a.map_values(|c: char| c as u32);
        let mb = b.map_values(|c: char| c as u32);
        assert(ka.drop_first() == ma);
        assert(kb.drop_first() == mb);
        assert(a.len() == b.len());
        assert forall|i: int| 0 <= i < a.len() implies a[i] == b[i] by {
            assert(ma[i] == mb[i]);
            vstd::utf8::char_u32_cast(a[i], ma[i]);
            vstd::utf8::char_u32_cast(b[i], mb[i]);
        }
        assert(a == b);
    } else if sa && !sb {
        assert(kb[0] == 3u32);
        assert(ka[0] == 1u32 || ka[0] == 2u32);
    } else if !sa && sb {
        assert(ka[0] == 3u32);
        assert(kb[0] == 1u32 || kb[0] == 2u32);
    } else {
        if a == seq!['.'] {
            assert(ka[0] == 1u32);
        } else {
            assert(ka[0] == 2u32);
        }
        if b == seq!['.'] {
            assert(kb[0] == 1u32);
        } else {
            assert(kb[0] == 2u32);
        }
    }
}

/// Paths with equal keys are the same path.
pub proof fn lemma_path_key_injective(a: PathModel, b: PathModel)
    requires
        path_key(a) == path_key(b),
    ensures
        a == b,
{
    let pa = a.1.map_values(|x: Seq<char>| component_key(x));
    let pb = b.1.map_values(|x: Seq<char>| component_key(x));
    if a.0 != b.0 {
        if a.0 {
            if pb.len() > 0 {
                assert(path_key(b)[0] == pb[0]);
                assert(pb[0][0] != 0u32);
            }
            assert(path_key(a).len() > 0);
        } else {
            if pa.len() > 0 {
                assert(path_key(a)[0] == pa[0]);
                assert(pa[0][0] != 0u32);
            }
            assert(path_key(b).len() > 0);
        }
    } else {
        if a.0 {
            assert(pa == path_key(a).drop_first());
            assert(pb == path_key(b).drop_first());
        }
        assert(pa == pb);
        assert forall|i: int| 0 <= i < a.1.len() implies a.1[i] == b.1[i] by {
            assert(pa[i] == pb[i]);
            lemma_component_key_injective(a.1[i], b.1[i]);
        }
        assert(a.1 == b.1);
    }
}

/// Which way two paths order.
#[derive(Clone, Copy, PartialEq, Eq, Debug, Structural)]
pub enum PathOrder {
    Less,
    Same,
    Greater,
}

fn component_key_of(part: &String) -> (k: Vec<u32>)
    ensures
        k@ == component_key(part@),
{
    let cs = chars_of(part.as_str());
    let mut k: Vec<u32> = Vec::new();
    if cs.len() == 1 && cs[0] == '.' {
        assert(cs@ == seq!['.']);
        k.push(1);
        return k;
    }
    if cs.len() == 2 && cs[0] == '.' && cs[1] == '.' {
        assert(cs@ == seq!['.', '.']);
        k.push(2);
        return k;
    }
    if cs.len() == 1 {
        assert(cs@ != seq!['.', '.']);
    }
    k.push(3);
    let mut i: usize = 0;
    while i < cs.len()
        invariant
            i <= cs.len(),
            k@ == seq![3u32] + cs@.take(i as int).map_values(|c: char| c as u32),
        decreases cs.len() - i,
    {
        k.push(cs[i] as u32);
        assert(cs@.take(i + 1) == cs@.take(i as int).push(cs[i as int]));
        i += 1;
    }
    assert(cs@.take(cs.len() as int) == cs@);
    k
}

fn path_key_of(p: &FsPath) -> (k: Vec<Vec<u32>>)
    ensures
        k@.map_values(|x: Vec<u32>| x@) == path_key(p@),
{
    let mut k: Vec<Vec<u32>> = Vec::new();
    if p.absolute {
        let mut root: Vec<u32> = Vec::new();
        root.push(0);
        k.push(root);
    }
    let ghost lead: Seq<Seq<u32>> = if p.absolute { seq![seq![0u32]] } else { Seq::empty() };
    assert(k@.map_values(|x: Vec<u32>| x@) == lead);
    let mut i: usize = 0;
    while i < p.parts.len()
        invariant
            i <= p.parts.len(),
            lead == (if p.absolute { seq![seq![0u32]] } else { Seq::<Seq<u32>>::empty() }),
            k@.map_values(|x: Vec<u32>| x@) == lead + part_views(p.parts@).take(i as int).map_values(
                |x: Seq<char>| component_key(x),
            ),
        decreases p.parts.len() - i,
    {
        let c = component_key_of(&p.parts[i]);
        let ghost before = k@;
        k.push(c);
        assert(k@.drop_last() == before);
        assert(part_views(p.parts@).take(i + 1) == part_views(p.parts@).take(i as int).push(
            p.parts@[i as int]@,
        ));
        assert(k@.map_values(|x: Vec<u32>| x@) == before.map_values(|x: Vec<u32>| x@).push(c@));
        i += 1;
    }
    assert(part_views(p.parts@).take(p.parts.len() as int) == part_views(p.parts@));
    k
}

fn compare_key(a: &Vec<u32>, b: &Vec<u32>) -> (r: PathOrder)
    ensures
        r == PathOrder::Less <==> key_lt(a@, b@),
        r == PathOrder::Same <==> a@ == b@,
        r == PathOrder::Greater <==> key_lt(b@, a@),
{
    proof {
        lemma_key_lt_total(a@, b@);
        lemma_key_lt_irreflexive(a@);
        if key_lt(a@, b@) {
            lemma_key_lt_asymmetric(a@, b@);
        }
    }
    let mut i: usize = 0;
    assert(a@.skip(0) == a@);
    assert(b@.skip(0) == b@);
    while i < a.len() && i < b.len()
        invariant
            i <= a.len(),
            i <= b.len(),
            key_lt(a@, b@) == key_lt(a@.skip(i as int), b@.skip(i as int)),
            key_lt(b@, a@) == key_lt(b@.skip(i as int), a@.skip(i as int)),
            a@.take(i as int) == b@.take(i as int),
        decreases a.len() - i,
    {
        assert(a@.skip(i as int)[0] == a@[i as int]);
        assert(b@.skip(i as int)[0] == b@[i as int]);
        if a[i] < b[i] {
            return PathOrder::Less;
        }
        if a[i] > b[i] {
            return PathOrder::Greater;
        }
        assert(a@.skip(i as int).drop_first() == a@.skip(i + 1));
        assert(b@.skip(i as int).drop_first() == b@.skip(i + 1));
        assert(a@.take(i + 1) == a@.take(i as int).push(a@[i as int]));
        assert(b@.take(i + 1) == b@.take(i as int).push(b@[i as int]));
        i += 1;
    }
    if a.len() == b.len() {
        assert(a@ == a@.take(i as int));
        assert(b@ == b@.take(i as int));
        PathOrder::Same
    } else if a.len() < b.len() {
        assert(a@.skip(i as int).len() == 0);
        PathOrder::Less
    } else {
        assert(b@.skip(i as int).len() == 0);
        PathOrder::Greater
    }
}

/// How two paths order, as `std::path::Path` orders them.
pub fn compare_paths(a: &FsPath, b: &FsPath) -> (r: PathOrder)
    ensures
        r == PathOrder::Less <==> path_lt(a@, b@),
        r == PathOrder::Same <==> a@ == b@,
        r == PathOrder::Greater <==> path_lt(b@, a@),
{
    let ka = path_key_of(a);
    let kb = path_key_of(b);
    let ghost va = ka@.map_values(|x: Vec<u32>| x@);
    let ghost vb = kb@.map_values(|x: Vec<u32>| x@);
    proof {
        lemma_keys_lt_total(va, vb);
        lemma_keys_lt_irreflexive(va);
        if keys_lt(va, vb) {
            lemma_keys_lt_asymmetric(va, vb);
        }
        if va == vb {
            lemma_path_key_injective(a@, b@);
        }
    }
    let mut i: usize = 0;
    assert(va.skip(0) == va);
    assert(vb.skip(0) == vb);
    while i < ka.len() && i < kb.len()
        invariant
            i <= ka.len(),
            i <= kb.len(),
            va == ka@.map_values(|x: Vec<u32>| x@),
            vb == kb@.map_values(|x: Vec<u32>| x@),
            va == path_key(a@),
            vb == path_key(b@),
            keys_lt(va, vb) == keys_lt(va.skip(i as int), vb.skip(i as int)),
            keys_lt(vb, va) == keys_lt(vb.skip(i as int), va.skip(i as int)),
            va.take(i as int) == vb.take(i as int),
        decreases ka.len() - i,
    {
        assert(va.skip(i as int)[0] == ka@[i as int]@);
        assert(vb.skip(i as int)[0] == kb@[i as int]@);
        match compare_key(&ka[i], &kb[i]) {
            PathOrder::Less => {
                proof {
                    lemma_key_lt_irreflexive(ka@[i as int]@);
                    lemma_key_lt_asymmetric(ka@[i as int]@, kb@[i as int]@);
                    assert(va[i as int] != vb[i as int]);
                    assert(va.skip(i as int)[0] != vb.skip(i as int)[0]);
                    assert(keys_lt(va.skip(i as int), vb.skip(i as int)));
                    assert(!keys_lt(vb.skip(i as int), va.skip(i as int)));
                    assert(va != vb);
                }
                return PathOrder::Less;
            },
            PathOrder::Greater => {
                proof {
                    lemma_key_lt_irreflexive(kb@[i as int]@);
                    lemma_key_lt_asymmetric(kb@[i as int]@, ka@[i as int]@);
                    assert(va[i as int] != vb[i as int]);
                    assert(va.skip(i as int)[0] != vb.skip(i as int)[0]);
                    assert(keys_lt(vb.skip(i as int), va.skip(i as int)));
                    assert(!keys_lt(va.skip(i as int), vb.skip(i as int)));
                    assert(va != vb);
                }
                return PathOrder::Greater;
            },
            PathOrder::Same => {},
        }
        assert(va.skip(i as int).drop_first() == va.skip(i + 1));
        assert(vb.skip(i as int).drop_first() == vb.skip(i + 1));
        assert(va.take(i + 1) == va.take(i as int).push(va[i as int]));
        assert(vb.take(i + 1) == vb.take(i as int).push(vb[i as int]));
        i += 1;
    }
    if ka.len() == kb.len() {
        assert(va == va.take(i as int));
        assert(vb == vb.take(i as int));
        PathOrder::Same
    } else if ka.len() < kb.len() {
        assert(va.skip(i as int).len() == 0);
        PathOrder::Less
    } else {
        assert(vb.skip(i as int).len() == 0);
        PathOrder::Greater
    }
}

} // verus!
