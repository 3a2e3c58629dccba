//! File-name hygiene for received files. Senders control `fileName` byte for
//! byte, so this is a security boundary: control characters and FAT-illegal
//! characters go, every component stays a name of its own, and no path can
//! leave the save directory.

use vstd::prelude::*;
use crate::disk::{path_exists, path_is_dir};
use crate::fspath::{
    key_lt, lemma_key_lt_asymmetric, lemma_key_lt_total, lemma_key_lt_transitive, chars_equal,
    display_spec, file_name_spec, join_spec, parse_spec, part_views, starts_with_spec, FsPath,
    PathModel, lemma_join_plain, parent_spec, plain_component, plain_path, dot_free,
};
use crate::text::{
    char_width, char_width_of, concat, fits_in, is_control, is_control_spec, is_sep,
    is_whitespace, is_whitespace_spec, lemma_segments_have_no_separator,
    lemma_segments_nonempty, lemma_segments_single, lemma_utf8_len_concat, lemma_utf8_len_prefix, segments, split,
    subvec, utf8_len, views, Separators, chars_of, string_of,
};

verus! {

/// Longest allowed name in bytes: under every filesystem's 255 while leaving
/// room for the ` (N)` collision suffix and `.<tag>.part`.
pub const MAX_NAME_BYTES: usize = 200;

/// Of which the extension may take at most this, leaving the stem a budget.
pub const MAX_EXT_BYTES: usize = 20;

/// Deepest folder chain rebuilt from a sender's path; the rest collapse onto it.
pub const MAX_DEPTH: usize = 8;

/// Characters FAT cannot hold in a name.
pub open spec fn is_fat_illegal(c: char) -> bool {
    c == ':' || c == '*' || c == '?' || c == '"' || c == '<' || c == '>' || c == '|'
}

/// What a character of a received name becomes: control and FAT-illegal
/// characters turn into `_`.
pub open spec fn clean_char(c: char) -> char {
    if is_control_spec(c) || is_fat_illegal(c) {
        '_'
    } else {
        c
    }
}

/// Characters trimmed from both ends of a name.
pub open spec fn is_trimmed(c: char) -> bool {
    c == '.' || is_whitespace_spec(c)
}

/// `s` without its leading trimmed characters.
pub open spec fn trim_front(s: Seq<char>) -> Seq<char>
    decreases s.len(),
{
    if s.len() > 0 && is_trimmed(s[0]) {
        trim_front(s.drop_first())
    } else {
        s
    }
}

/// `s` without its trailing trimmed characters.
pub open spec fn trim_back(s: Seq<char>) -> Seq<char>
    decreases s.len(),
{
    if s.len() > 0 && is_trimmed(s.last()) {
        trim_back(s.drop_last())
    } else {
        s
    }
}

/// `s` with trimmed characters gone from both ends.
pub open spec fn trim_spec(s: Seq<char>) -> Seq<char> {
    trim_back(trim_front(s))
}

/// How many leading characters of `s` fit in `max` bytes.
pub open spec fn fit_count(s: Seq<char>, max: int) -> nat
    decreases s.len(),
{
    if s.len() == 0 || char_width(s[0]) > max {
        0
    } else {
        1 + fit_count(s.drop_first(), max - char_width(s[0]))
    }
}

/// The longest prefix of `s` that fits in `max` bytes, never splitting a
/// character.
pub open spec fn truncate_spec(s: Seq<char>, max: int) -> Seq<char> {
    s.take(fit_count(s, max) as int)
}

/// Index of the last `.` in `s`, or -1.
pub open spec fn last_dot(s: Seq<char>) -> int
    decreases s.len(),
{
    if s.len() == 0 {
        -1
    } else if s.last() == '.' {
        s.len() - 1
    } else {
        last_dot(s.drop_last())
    }
}

/// `("archive.tar", ".gz")`-style split at the last dot; a name without one,
/// or with only a leading one, has an empty extension.
pub open spec fn split_extension_spec(s: Seq<char>) -> (Seq<char>, Seq<char>) {
    let i = last_dot(s);
    if i > 0 {
        (s.take(i), s.skip(i))
    } else {
        (s, Seq::empty())
    }
}

/// One component reduced to a legal name, or none when nothing of it
/// survives. An over-long name keeps its extension (cut to
/// `MAX_EXT_BYTES`) and gives up the end of its stem; what the cut leaves
/// trailing is trimmed again.
pub open spec fn clean_spec(raw: Seq<char>) -> Option<Seq<char>> {
    let t = trim_spec(raw.map_values(|c: char| clean_char(c)));
    if t.len() == 0 {
        None
    } else if utf8_len(t) <= MAX_NAME_BYTES {
        Some(t)
    } else {
        let stem = split_extension_spec(t).0;
        let ext = truncate_spec(split_extension_spec(t).1, MAX_EXT_BYTES as int);
        Some(trim_back(truncate_spec(stem, MAX_NAME_BYTES - utf8_len(ext)) + ext))
    }
}

/// A name that is safe to create: non-empty, at most `MAX_NAME_BYTES` bytes,
/// no separator, control or FAT-illegal character, and no dot or whitespace at
/// either end (so never `.` or `..`).
pub open spec fn is_safe_name(s: Seq<char>) -> bool {
    &&& s.len() > 0
    &&& utf8_len(s) <= MAX_NAME_BYTES
    &&& forall|i: int| 0 <= i < s.len() ==> #[trigger] safe_char(s[i])
    &&& !is_trimmed(s[0])
    &&& !is_trimmed(s.last())
}

/// A character a safe name may hold.
pub open spec fn safe_char(c: char) -> bool {
    !is_sep(c, Separators::Any) && !is_control_spec(c) && !is_fat_illegal(c)
}

/// Whether `c` is FAT-illegal.
fn is_fat_illegal_char(c: char) -> (r: bool)
    ensures
        r == is_fat_illegal(c),
{
    c == ':' || c == '*' || c == '?' || c == '"' || c == '<' || c == '>' || c == '|'
}

/// Whether `c` is trimmed from the ends of a name.
fn is_trimmed_char(c: char) -> (r: bool)
    ensures
        r == is_trimmed(c),
{
    c == '.' || is_whitespace(c)
}

/// Every character replaced as `clean_char` says.
fn map_clean(v: &Vec<char>) -> (r: Vec<char>)
    ensures
        r@ == v@.map_values(|c: char| clean_char(c)),
{
    let mut r: Vec<char> = Vec::new();
    let mut i: usize = 0;
    while i < v.len()
        invariant
            i <= v.len(),
            r@ == v@.subrange(0, i as int).map_values(|c: char| clean_char(c)),
        decreases v.len() - i,
    {
        let c = v[i];
        let d = if is_control(c) || is_fat_illegal_char(c) {
            '_'
        } else {
            c
        };
        r.push(d);
        assert(v@.subrange(0, i + 1) == v@.subrange(0, i as int).push(c));
        i += 1;
    }
    assert(v@.subrange(0, v.len() as int) == v@);
    r
}

/// `trim_front` drops a prefix.
proof fn lemma_trim_front_is_suffix(s: Seq<char>)
    ensures
        trim_front(s).len() <= s.len(),
        trim_front(s) == s.skip(s.len() - trim_front(s).len()),
        trim_front(s).len() > 0 ==> !is_trimmed(trim_front(s)[0]),
    decreases s.len(),
{
    if s.len() > 0 && is_trimmed(s[0]) {
        lemma_trim_front_is_suffix(s.drop_first());
        assert(s.drop_first().skip(s.drop_first().len() - trim_front(s).len()) == s.skip(
            s.len() - trim_front(s).len(),
        ));
    } else {
        assert(s.skip(0) == s);
    }
}

/// `trim_back` keeps a prefix.
proof fn lemma_trim_back_is_prefix(s: Seq<char>)
    ensures
        trim_back(s).len() <= s.len(),
        trim_back(s) == s.take(trim_back(s).len() as int),
        trim_back(s).len() > 0 ==> !is_trimmed(trim_back(s).last()),
        s.len() > 0 && !is_trimmed(s[0]) ==> trim_back(s).len() > 0,
    decreases s.len(),
{
    if s.len() > 0 && is_trimmed(s.last()) {
        lemma_trim_back_is_prefix(s.drop_last());
        assert(s.drop_last().take(trim_back(s).len() as int) == s.take(
            trim_back(s).len() as int,
        ));
        if s.len() > 1 {
            assert(s.drop_last()[0] == s[0]);
        }
    } else {
        assert(s.take(s.len() as int) == s);
    }
}

/// Drops leading trimmed characters.
fn trim_front_of(v: &Vec<char>) -> (r: Vec<char>)
    ensures
        r@ == trim_front(v@),
{
    let mut i: usize = 0;
    assert(v@.subrange(0, v.len() as int) == v@);
    while i < v.len() && is_trimmed_char(v[i])
        invariant
            i <= v.len(),
            trim_front(v@) == trim_front(v@.subrange(i as int, v.len() as int)),
        decreases v.len() - i,
    {
        assert(v@.subrange(i as int, v.len() as int).drop_first() == v@.subrange(
            i + 1,
            v.len() as int,
        ));
        i += 1;
    }
    subvec(v, i, v.len())
}

/// Drops trailing trimmed characters.
fn trim_back_of(v: &Vec<char>) -> (r: Vec<char>)
    ensures
        r@ == trim_back(v@),
{
    let mut j: usize = v.len();
    assert(v@.subrange(0, v.len() as int) == v@);
    while j > 0 && is_trimmed_char(v[j - 1])
        invariant
            j <= v.len(),
            trim_back(v@) == trim_back(v@.subrange(0, j as int)),
        decreases j,
    {
        assert(v@.subrange(0, j as int).drop_last() == v@.subrange(0, j - 1));
        j -= 1;
    }
    subvec(v, 0, j)
}

/// The longest prefix of `v` that fits in `max` bytes.
fn truncate_chars(v: &Vec<char>, max: usize) -> (r: Vec<char>)
    ensures
        r@ == truncate_spec(v@, max as int),
        utf8_len(r@) <= max,
{
    let mut i: usize = 0;
    let mut used: usize = 0;
    assert(v@.skip(0) == v@);
    assert(v@.take(0) == Seq::<char>::empty());
    while i < v.len() && char_width_of(v[i]) <= max - used
        invariant
            i <= v.len(),
            used <= max,
            used == utf8_len(v@.take(i as int)),
            fit_count(v@, max as int) == i + fit_count(v@.skip(i as int), max - used),
        decreases v.len() - i,
    {
        let w = char_width_of(v[i]);
        assert(v@.skip(i as int).drop_first() == v@.skip(i + 1));
        assert(v@.take(i + 1).drop_last() == v@.take(i as int));
        used = used + w;
        i += 1;
    }
    assert(v@.take(i as int) == v@.subrange(0, i as int));
    subvec(v, 0, i)
}

/// Index of the last `.`.
fn last_dot_of(v: &Vec<char>) -> (r: Option<usize>)
    ensures
        r matches Some(i) ==> last_dot(v@) == i && i < v.len(),
        r is None ==> last_dot(v@) == -1,
{
    let mut j: usize = v.len();
    assert(v@.subrange(0, v.len() as int) == v@);
    while j > 0
        invariant
            j <= v.len(),
            last_dot(v@) == last_dot(v@.subrange(0, j as int)),
        decreases j,
    {
        assert(v@.subrange(0, j as int).drop_last() == v@.subrange(0, j - 1));
        if v[j - 1] == '.' {
            return Some(j - 1);
        }
        j -= 1;
    }
    None
}

/// Splits `v` at its last dot, as `split_extension_spec` says.
fn split_extension(v: &Vec<char>) -> (r: (Vec<char>, Vec<char>))
    ensures
        r.0@ == split_extension_spec(v@).0,
        r.1@ == split_extension_spec(v@).1,
{
    match last_dot_of(v) {
        Some(i) if i > 0 => {
            assert(v@.take(i as int) == v@.subrange(0, i as int));
            assert(v@.skip(i as int) == v@.subrange(i as int, v.len() as int));
            (subvec(v, 0, i), subvec(v, i, v.len()))
        },
        _ => (subvec(v, 0, v.len()), Vec::new()),
    }
}


/// Bytes of a character sequence known to be short.
fn byte_len(v: &Vec<char>, bound: usize) -> (n: usize)
    requires
        utf8_len(v@) <= bound,
    ensures
        n == utf8_len(v@),
{
    let mut n: usize = 0;
    let mut i: usize = 0;
    while i < v.len()
        invariant
            i <= v.len(),
            n == utf8_len(v@.take(i as int)),
            utf8_len(v@) <= bound,
        decreases v.len() - i,
    {
        proof {
            lemma_utf8_len_prefix(v@, i + 1);
        }
        assert(v@.take(i + 1).drop_last() == v@.take(i as int));
        n = n + char_width_of(v[i]);
        i += 1;
    }
    assert(v@.take(v.len() as int) == v@);
    n
}

/// What `fit_count` keeps fits.
proof fn lemma_fit_count(s: Seq<char>, max: int)
    requires
        max >= 0,
    ensures
        fit_count(s, max) <= s.len(),
        utf8_len(truncate_spec(s, max)) <= max,
        s.len() > 0 && char_width(s[0]) <= max ==> fit_count(s, max) >= 1,
    decreases s.len(),
{
    if s.len() == 0 || char_width(s[0]) > max {
        assert(s.take(0) == Seq::<char>::empty());
        assert(utf8_len(Seq::<char>::empty()) == 0);
    } else {
        let rest = s.drop_first();
        let m = max - char_width(s[0]);
        lemma_fit_count(rest, m);
        let k = fit_count(rest, m) as int;
        assert(s.take(k + 1) == seq![s[0]] + rest.take(k));
        lemma_utf8_len_concat(seq![s[0]], rest.take(k));
        assert(seq![s[0]].drop_last() == Seq::<char>::empty());
        assert(utf8_len(Seq::<char>::empty()) == 0);
        assert(utf8_len(seq![s[0]]) == char_width(s[0]));
        assert(fit_count(s, max) == k + 1);
    }
}

/// A character sequence made of safe characters.
pub open spec fn all_safe(s: Seq<char>) -> bool {
    forall|i: int| 0 <= i < s.len() ==> #[trigger] safe_char(s[i])
}

proof fn lemma_all_safe_subrange(s: Seq<char>, a: int, b: int)
    requires
        all_safe(s),
        0 <= a <= b <= s.len(),
    ensures
        all_safe(s.subrange(a, b)),
{
    assert forall|i: int| 0 <= i < b - a implies #[trigger] safe_char(s.subrange(a, b)[i]) by {
        assert(s.subrange(a, b)[i] == s[a + i]);
    }
}

proof fn lemma_all_safe_concat(s: Seq<char>, t: Seq<char>)
    requires
        all_safe(s),
        all_safe(t),
    ensures
        all_safe(s + t),
{
    assert forall|i: int| 0 <= i < (s + t).len() implies #[trigger] safe_char((s + t)[i]) by {
        if i < s.len() {
            assert((s + t)[i] == s[i]);
        } else {
            assert((s + t)[i] == t[i - s.len()]);
        }
    }
}

/// What survives the cleaning of a component that holds no separator is a
/// safe name.
pub proof fn lemma_clean_is_safe(raw: Seq<char>)
    requires
        forall|i: int| 0 <= i < raw.len() ==> !is_sep(#[trigger] raw[i], Separators::Any),
    ensures
        clean_spec(raw) matches Some(x) ==> is_safe_name(x),
{
    let mapped = raw.map_values(|c: char| clean_char(c));
    assert(all_safe(mapped)) by {
        assert forall|i: int| 0 <= i < mapped.len() implies #[trigger] safe_char(mapped[i]) by {
            assert(mapped[i] == clean_char(raw[i]));
        }
    }
    let tf = trim_front(mapped);
    lemma_trim_front_is_suffix(mapped);
    lemma_all_safe_subrange(mapped, mapped.len() - tf.len(), mapped.len() as int);
    assert(tf == mapped.subrange(mapped.len() - tf.len(), mapped.len() as int));
    let t = trim_back(tf);
    lemma_trim_back_is_prefix(tf);
    lemma_all_safe_subrange(tf, 0, t.len() as int);
    assert(t == tf.subrange(0, t.len() as int));
    if t.len() > 0 {
        assert(t[0] == tf[0]);
        if utf8_len(t) <= MAX_NAME_BYTES {
        } else {
            let (stem, ext0) = split_extension_spec(t);
            let i = last_dot(t);
            lemma_last_dot_range(t);
            if i > 0 {
                lemma_all_safe_subrange(t, 0, i);
                lemma_all_safe_subrange(t, i, t.len() as int);
                assert(stem == t.subrange(0, i));
                assert(ext0 == t.subrange(i, t.len() as int));
            } else {
                assert(ext0.len() == 0);
            }
            lemma_fit_count(ext0, MAX_EXT_BYTES as int);
            let ext = truncate_spec(ext0, MAX_EXT_BYTES as int);
            lemma_all_safe_subrange(ext0, 0, ext.len() as int);
            assert(ext == ext0.subrange(0, ext.len() as int));
            let budget = MAX_NAME_BYTES - utf8_len(ext);
            assert(stem.len() > 0 && stem[0] == t[0]);
            assert(char_width(stem[0]) <= 4);
            lemma_fit_count(stem, budget);
            let st = truncate_spec(stem, budget);
            lemma_all_safe_subrange(stem, 0, st.len() as int);
            assert(st == stem.subrange(0, st.len() as int));
            lemma_all_safe_concat(st, ext);
            let joined = st + ext;
            assert(joined[0] == t[0]);
            lemma_utf8_len_concat(st, ext);
            let x = trim_back(joined);
            lemma_trim_back_is_prefix(joined);
            lemma_all_safe_subrange(joined, 0, x.len() as int);
            assert(x == joined.subrange(0, x.len() as int));
            lemma_utf8_len_prefix(joined, x.len() as int);
            assert(x[0] == joined[0]);
        }
    }
}

/// `last_dot` is -1 or an index of `s` holding a dot.
proof fn lemma_last_dot_range(s: Seq<char>)
    ensures
        -1 <= last_dot(s) < s.len(),
        last_dot(s) >= 0 ==> s[last_dot(s)] == '.',
    decreases s.len(),
{
    if s.len() > 0 && s.last() != '.' {
        lemma_last_dot_range(s.drop_last());
    }
}

/// One component reduced to a legal name, or `None` when nothing of it
/// survives. Splitting is the caller's job.
fn clean_component(raw: &Vec<char>) -> (r: Option<Vec<char>>)
    ensures
        r matches Some(x) ==> clean_spec(raw@) == Some(x@),
        r is None ==> clean_spec(raw@) is None,
{
    let mapped = map_clean(raw);
    let front = trim_front_of(&mapped);
    let t = trim_back_of(&front);
    if t.len() == 0 {
        return None;
    }
    if fits_in(&t, MAX_NAME_BYTES) {
        return Some(t);
    }
    let (stem, ext) = split_extension(&t);
    let ext = truncate_chars(&ext, MAX_EXT_BYTES);
    let ext_bytes = byte_len(&ext, MAX_EXT_BYTES);
    let stem = truncate_chars(&stem, MAX_NAME_BYTES - ext_bytes);
    let joined = concat(&stem, &ext);
    Some(trim_back_of(&joined))
}


/// What stands in for a component that sanitizes away to nothing: `file`.
pub open spec fn fallback_name() -> Seq<char> {
    seq!['f', 'i', 'l', 'e']
}

/// The fallback name as characters.
fn fallback_chars() -> (v: Vec<char>)
    ensures
        v@ == fallback_name(),
{
    let mut v: Vec<char> = Vec::new();
    v.push('f');
    v.push('i');
    v.push('l');
    v.push('e');
    v
}

/// The cleaned form of `raw`, or the fallback when nothing survives.
pub open spec fn clean_or_fallback(raw: Seq<char>) -> Seq<char> {
    match clean_spec(raw) {
        Some(x) => x,
        None => fallback_name(),
    }
}

/// `sanitize_filename`'s result: the last segment of `raw` (split at `/`,
/// `\` and NUL), cleaned.
pub open spec fn sanitize_filename_spec(raw: Seq<char>) -> Seq<char> {
    clean_or_fallback(segments(raw, Separators::Any).last())
}

/// Each segment cleaned, the ones with nothing left dropped.
pub open spec fn cleaned_all(segs: Seq<Seq<char>>) -> Seq<Seq<char>> {
    segs.filter_map(|x: Seq<char>| clean_spec(x))
}

/// The folders a sent path keeps: its segments before the last, cleaned, the
/// empty ones gone, at most `MAX_DEPTH` of them.
pub open spec fn kept_folders(raw: Seq<char>) -> Seq<Seq<char>> {
    let all = cleaned_all(segments(raw, Separators::Any).drop_last());
    all.take(if all.len() <= MAX_DEPTH { all.len() as int } else { MAX_DEPTH as int })
}

/// `sanitize_relative_path`'s result: a relative path of the kept folders
/// and then the cleaned name.
pub open spec fn sanitize_relative_path_spec(raw: Seq<char>) -> PathModel {
    (false, kept_folders(raw).push(sanitize_filename_spec(raw)))
}

proof fn lemma_fallback_is_safe()
    ensures
        is_safe_name(fallback_name()),
{
    let f = fallback_name();
    assert(f.drop_last().drop_last().drop_last().drop_last() == Seq::<char>::empty());
    assert(utf8_len(f) == 4) by {
        reveal_with_fuel(utf8_len, 5);
    }
    assert(is_whitespace_spec('f') == false);
    assert(is_whitespace_spec('e') == false);
}

/// The last segment of a split holds no separator, and its cleaned form
/// is a safe name.
pub proof fn lemma_sanitized_name_is_safe(raw: Seq<char>)
    ensures
        is_safe_name(sanitize_filename_spec(raw)),
{
    lemma_segments_nonempty(raw, Separators::Any);
    lemma_segments_have_no_separator(raw, Separators::Any);
    let segs = segments(raw, Separators::Any);
    let last = segs.last();
    assert forall|j: int| 0 <= j < last.len() implies !is_sep(#[trigger] last[j], Separators::Any) by {
        assert(segs[segs.len() - 1][j] == last[j]);
    }
    lemma_clean_is_safe(last);
    lemma_fallback_is_safe();
}

/// Every folder a sent path keeps is a safe name.
pub proof fn lemma_kept_folders_are_safe(raw: Seq<char>)
    ensures
        kept_folders(raw).len() <= MAX_DEPTH,
        forall|i: int| 0 <= i < kept_folders(raw).len() ==> is_safe_name(#[trigger] kept_folders(raw)[i]),
{
    lemma_segments_nonempty(raw, Separators::Any);
    lemma_segments_have_no_separator(raw, Separators::Any);
    let segs = segments(raw, Separators::Any);
    let front = segs.drop_last();
    assert forall|k: int, j: int| 0 <= k < front.len() && 0 <= j < front[k].len() implies !is_sep(
        #[trigger] front[k][j],
        Separators::Any,
    ) by {
        assert(front[k] == segs[k]);
    }
    lemma_filter_map_clean_safe(front);
}

/// Cleaning separator-free segments leaves safe names only.
proof fn lemma_filter_map_clean_safe(front: Seq<Seq<char>>)
    requires
        forall|k: int, j: int| 0 <= k < front.len() && 0 <= j < front[k].len() ==> !is_sep(
            #[trigger] front[k][j],
            Separators::Any,
        ),
    ensures
        forall|i: int|
            0 <= i < cleaned_all(front).len() ==> is_safe_name(#[trigger] cleaned_all(front)[i]),
    decreases front.len(),
{
    if front.len() > 0 {
        let rest = front.drop_last();
        assert forall|k: int, j: int| 0 <= k < rest.len() && 0 <= j < rest[k].len() implies !is_sep(
            #[trigger] rest[k][j],
            Separators::Any,
        ) by {
            assert(rest[k] == front[k]);
        }
        lemma_filter_map_clean_safe(rest);
        let last = front.last();
        assert forall|j: int| 0 <= j < last.len() implies !is_sep(#[trigger] last[j], Separators::Any) by {
            assert(front[front.len() - 1][j] == last[j]);
        }
        lemma_clean_is_safe(last);
        let f = |x: Seq<char>| clean_spec(x);
        let all = cleaned_all(front);
        let prev = cleaned_all(rest);
        assert forall|i: int| 0 <= i < all.len() implies is_safe_name(#[trigger] all[i]) by {
            if i < prev.len() {
                match f(last) {
                    Some(x) => {
                        assert(all == prev + seq![x]);
                    },
                    None => {},
                }
                assert(all[i] == prev[i]);
            }
        }
    }
}

proof fn lemma_safe_is_plain(s: Seq<char>)
    requires
        is_safe_name(s),
    ensures
        plain_component(s),
        s != seq!['.'],
        s != seq!['.', '.'],
{
    assert forall|i: int| 0 <= i < s.len() implies s[i] != '/' by {
        assert(safe_char(s[i]));
    }
    assert(s[0] != '.');
}

/// A sanitized name joined onto a directory names a file directly in that
/// directory: the joined path is the directory with the name appended, its
/// parent is the directory, and it lies inside it. Every directory read from
/// text is plain (`lemma_parsed_paths_are_plain`).
pub proof fn law_sanitized_name_stays_inside(dir: PathModel, raw: Seq<char>)
    requires
        plain_path(dir),
    ensures
        join_spec(dir, sanitize_filename_spec(raw)) == (dir.0, dir.1.push(sanitize_filename_spec(raw))),
        parent_spec(join_spec(dir, sanitize_filename_spec(raw))) == Some(dir),
        is_inside_spec(dir, join_spec(dir, sanitize_filename_spec(raw))),
{
    let name = sanitize_filename_spec(raw);
    lemma_sanitized_name_is_safe(raw);
    lemma_safe_is_plain(name);
    let rel = (false, seq![name]);
    assert(display_spec(rel) == name);
    assert(plain_component(rel.1[0]));
    assert(rel.1[0] != seq!['.']);
    assert(dot_free(rel.1));
    lemma_join_plain(dir, rel);
    assert(dir.1 + rel.1 == dir.1.push(name));
    let j = join_spec(dir, name);
    assert(j.1.drop_last() == dir.1);
    assert(j.1.subrange(0, dir.1.len() as int) == dir.1);
}

/// Joining a sanitized relative path onto a directory can never leave it: the
/// joined path is the directory with the path's components appended, it lies
/// strictly inside the directory, and every component it adds is a safe name,
/// never `.` or `..`. Every directory read from text is plain
/// (`lemma_parsed_paths_are_plain`).
pub proof fn law_relative_path_stays_inside(dir: PathModel, raw: Seq<char>)
    requires
        plain_path(dir),
    ensures
        ({
            let rel = sanitize_relative_path_spec(raw);
            let joined = join_spec(dir, display_spec(rel));
            &&& joined == (dir.0, dir.1 + rel.1)
            &&& is_inside_spec(dir, joined)
            &&& forall|i: int| dir.1.len() <= i < joined.1.len() ==> is_safe_name(#[trigger] joined.1[i]) && joined.1[i]
                != seq!['.', '.']
        }),
{
    let rel = sanitize_relative_path_spec(raw);
    lemma_sanitized_name_is_safe(raw);
    lemma_kept_folders_are_safe(raw);
    assert forall|i: int| 0 <= i < rel.1.len() implies is_safe_name(#[trigger] rel.1[i]) by {
        if i < kept_folders(raw).len() {
            assert(rel.1[i] == kept_folders(raw)[i]);
        } else {
            assert(rel.1[i] == sanitize_filename_spec(raw));
        }
    }
    assert forall|i: int| 0 <= i < rel.1.len() implies plain_component(#[trigger] rel.1[i]) && rel.1[i] != seq!['.'] by {
        lemma_safe_is_plain(rel.1[i]);
    }
    assert(dot_free(rel.1));
    lemma_join_plain(dir, rel);
    let joined = join_spec(dir, display_spec(rel));
    assert(joined.1.subrange(0, dir.1.len() as int) == dir.1);
    assert forall|i: int| dir.1.len() <= i < joined.1.len() implies is_safe_name(#[trigger] joined.1[i]) && joined.1[i]
        != seq!['.', '.'] by {
        assert(joined.1[i] == rel.1[i - dir.1.len()]);
        lemma_safe_is_plain(rel.1[i - dir.1.len()]);
    }
}

/// A name that needs no cleaning comes through sanitizing as it is: when it
/// holds no separator (`/`, `\`, NUL), no control character (U+0000–U+001F,
/// U+007F–U+009F) and none of `: * ? " < > |`, has neither a dot nor
/// whitespace at either end, and fits in `MAX_NAME_BYTES` bytes, every other
/// character (brackets, spaces, accents, …) is kept, in place.
pub proof fn law_a_clean_name_passes_unchanged(raw: Seq<char>)
    requires
        raw.len() > 0,
        utf8_len(raw) <= MAX_NAME_BYTES,
        forall|i: int|
            0 <= i < raw.len() ==> {
                let c = #[trigger] raw[i];
                &&& c != '/' && c != '\\' && c != '\0'
                &&& (c as u32) > 0x1F && !(0x7F <= (c as u32) && (c as u32) <= 0x9F)
                &&& c != ':' && c != '*' && c != '?' && c != '"' && c != '<' && c != '>' && c != '|'
            },
        raw[0] != '.' && !is_whitespace_spec(raw[0]),
        raw.last() != '.' && !is_whitespace_spec(raw.last()),
    ensures
        sanitize_filename_spec(raw) == raw,
{
    assert forall|i: int| 0 <= i < raw.len() implies !is_sep(#[trigger] raw[i], Separators::Any) by {
        let c = raw[i];
    }
    lemma_segments_single(raw, Separators::Any);
    assert(segments(raw, Separators::Any).last() == raw);
    let mapped = raw.map_values(|c: char| clean_char(c));
    assert forall|i: int| 0 <= i < raw.len() implies #[trigger] mapped[i] == raw[i] by {
        let c = raw[i];
        assert(!is_control_spec(c));
        assert(!is_fat_illegal(c));
    }
    assert(mapped =~= raw);
    assert(trim_front(raw) == raw);
    assert(trim_back(raw) == raw);
    assert(trim_spec(mapped) == raw);
    assert(clean_spec(raw) == Some(raw));
}

/// Reduce an untrusted sender-supplied file name to a safe basename,
/// dropping any directory components: non-empty, no separators, no control
/// or FAT-illegal characters, no leading or trailing dots or spaces (so `.`
/// and `..` are impossible), at most `MAX_NAME_BYTES` bytes.
pub fn sanitize_filename(raw: &str) -> (r: String)
    ensures
        r@ == sanitize_filename_spec(raw@),
        is_safe_name(r@),
{
    let cs = chars_of(raw);
    let segs = split(&cs, Separators::Any);
    proof {
        lemma_segments_nonempty(cs@, Separators::Any);
        lemma_sanitized_name_is_safe(raw@);
    }
    let last = &segs[segs.len() - 1];
    assert(views(segs@).last() == last@);
    let name = match clean_component(last) {
        Some(x) => x,
        None => fallback_chars(),
    };
    string_of(&name)
}

/// Reduce a sender-supplied name (which may carry the folders of a folder
/// transfer) to a safe relative path: every component sanitized as in
/// `sanitize_filename`, components with no name of their own dropped, at most
/// `MAX_DEPTH` folders kept, and always a name at the end.
pub fn sanitize_relative_path(raw: &str) -> (p: FsPath)
    ensures
        p@ == sanitize_relative_path_spec(raw@),
        !p@.0,
        p@.1.len() >= 1,
        p@.1.len() <= MAX_DEPTH + 1,
        forall|i: int| 0 <= i < p@.1.len() ==> is_safe_name(#[trigger] p@.1[i]),
{
    let cs = chars_of(raw);
    let segs = split(&cs, Separators::Any);
    proof {
        lemma_segments_nonempty(cs@, Separators::Any);
        lemma_sanitized_name_is_safe(raw@);
        lemma_kept_folders_are_safe(raw@);
    }
    let n = segs.len();
    let ghost front = views(segs@).drop_last();
    let mut all: Vec<String> = Vec::new();
    let mut i: usize = 0;
    while i < n - 1
        invariant
            n == segs.len(),
            n >= 1,
            i <= n - 1,
            front == views(segs@).drop_last(),
            part_views(all@) == cleaned_all(front.subrange(0, i as int)),
        decreases n - 1 - i,
    {
        let ghost pre = front.subrange(0, i as int);
        assert(front.subrange(0, i + 1).drop_last() == pre);
        assert(front.subrange(0, i + 1).last() == segs@[i as int]@);
        match clean_component(&segs[i]) {
            Some(x) => {
                let part = string_of(&x);
                let ghost before = all@;
                all.push(part);
                assert(all@.drop_last() == before);
                assert(part_views(all@) == part_views(before) + seq![part@]);
            },
            None => {},
        }
        i += 1;
    }
    assert(front.subrange(0, (n - 1) as int) == front);
    let keep = if all.len() <= MAX_DEPTH {
        all.len()
    } else {
        MAX_DEPTH
    };
    let mut parts: Vec<String> = Vec::new();
    let mut k: usize = 0;
    while k < keep
        invariant
            keep <= all.len(),
            k <= keep,
            part_views(parts@) == part_views(all@).take(k as int),
        decreases keep - k,
    {
        let part = all[k].clone();
        let ghost before = parts@;
        parts.push(part);
        assert(parts@.drop_last() == before);
        assert(part_views(parts@) == part_views(before).push(part@));
        assert(part_views(all@).take(k + 1) == part_views(all@).take(k as int).push(all@[k as int]@));
        k += 1;
    }
    let last = &segs[n - 1];
    assert(views(segs@).last() == last@);
    let name = match clean_component(last) {
        Some(x) => x,
        None => fallback_chars(),
    };
    let name = string_of(&name);
    let ghost before = parts@;
    parts.push(name);
    assert(parts@.drop_last() == before);
    assert(part_views(parts@) == part_views(before).push(name@));
    FsPath { absolute: false, parts }
}


/// `char::to_ascii_lowercase`.
pub open spec fn ascii_lower(c: char) -> char {
    if 'A' <= c && c <= 'Z' {
        ((c as u32) + 32) as char
    } else {
        c
    }
}

/// `s` with ASCII letters lowercased.
pub open spec fn ascii_lower_all(s: Seq<char>) -> Seq<char> {
    s.map_values(|c: char| ascii_lower(c))
}

/// Lowercases ASCII letters.
fn lower_ascii(v: &Vec<char>) -> (r: Vec<char>)
    ensures
        r@ == ascii_lower_all(v@),
{
    let mut r: Vec<char> = Vec::new();
    let mut i: usize = 0;
    while i < v.len()
        invariant
            i <= v.len(),
            r@ == ascii_lower_all(v@.subrange(0, i as int)),
        decreases v.len() - i,
    {
        let c = v[i];
        let d = if 'A' <= c && c <= 'Z' {
            ((c as u8) + 32) as char
        } else {
            c
        };
        assert(d == ascii_lower(c));
        r.push(d);
        assert(v@.subrange(0, i + 1) == v@.subrange(0, i as int).push(c));
        i += 1;
    }
    assert(v@.subrange(0, v.len() as int) == v@);
    r
}

/// The lowercase extension of a name, without its dot: what follows the last
/// dot when that dot is not the first character, else nothing.
pub open spec fn extension_spec(name: Seq<char>) -> Seq<char> {
    let ext = split_extension_spec(name).1;
    if ext.len() > 0 {
        ascii_lower_all(ext.drop_first())
    } else {
        Seq::empty()
    }
}

/// The lowercase extension without the dot (`"foo.GBC"` → `"gbc"`), or `""`
/// when there is none. Routes received files to per-extension folders.
pub fn extension_of(name: &str) -> (r: String)
    ensures
        r@ == extension_spec(name@),
{
    let cs = chars_of(name);
    let (_, ext) = split_extension(&cs);
    if ext.len() == 0 {
        return String::new();
    }
    proof {
        lemma_last_dot_range(cs@);
    }
    let rest = subvec(&ext, 1, ext.len());
    assert(rest@ == ext@.drop_first());
    string_of(&lower_ascii(&rest))
}

/// `Path::extension` of a file name: what follows its last dot, when that
/// dot is not the first character.
pub open spec fn path_extension_spec(p: PathModel) -> Option<Seq<char>> {
    match file_name_spec(p) {
        Some(n) => if last_dot(n) > 0 {
            Some(n.skip(last_dot(n) + 1))
        } else {
            None
        },
        None => None,
    }
}

/// `Path::extension`: what follows the last dot of the file name, when that
/// dot is not its first character.
pub fn path_extension(path: &FsPath) -> (r: Option<Vec<char>>)
    ensures
        match r {
            Some(x) => path_extension_spec(path@) == Some(x@),
            None => path_extension_spec(path@) is None,
        },
{
    let name = match path.file_name() {
        Some(n) => n,
        None => return None,
    };
    let cs = chars_of(name.as_str());
    match last_dot_of(&cs) {
        Some(i) if i > 0 => {
            proof {
                lemma_last_dot_range(cs@);
            }
            let tail = subvec(&cs, i + 1, cs.len());
            assert(tail@ == cs@.skip(i + 1));
            Some(tail)
        },
        _ => None,
    }
}

/// The MIME type announced for a file with extension `ext` (already
/// lowercased); octet-stream for anything else.
pub open spec fn mime_spec(ext: Option<Seq<char>>) -> Seq<char> {
    match ext {
        Some(e) => if e == "png"@ {
            "image/png"@
        } else if e == "jpg"@ || e == "jpeg"@ {
            "image/jpeg"@
        } else if e == "gif"@ {
            "image/gif"@
        } else if e == "webp"@ {
            "image/webp"@
        } else if e == "bmp"@ {
            "image/bmp"@
        } else if e == "txt"@ || e == "md"@ || e == "log"@ || e == "cfg"@ || e == "ini"@ {
            "text/plain"@
        } else if e == "json"@ {
            "application/json"@
        } else if e == "pdf"@ {
            "application/pdf"@
        } else if e == "zip"@ {
            "application/zip"@
        } else if e == "7z"@ {
            "application/x-7z-compressed"@
        } else if e == "mp3"@ {
            "audio/mpeg"@
        } else if e == "ogg"@ {
            "audio/ogg"@
        } else if e == "wav"@ {
            "audio/wav"@
        } else if e == "mp4"@ {
            "video/mp4"@
        } else if e == "mkv"@ {
            "video/x-matroska"@
        } else if e == "webm"@ {
            "video/webm"@
        } else {
            "application/octet-stream"@
        },
        None => "application/octet-stream"@,
    }
}

/// The MIME type announced for the file at `p`: by its extension, ASCII
/// letters lowercased.
pub open spec fn mime_of(p: PathModel) -> Seq<char> {
    mime_spec(
        match path_extension_spec(p) {
            Some(e) => Some(ascii_lower_all(e)),
            None => None,
        },
    )
}

/// The MIME type follows the extension alone, ASCII case aside: a file
/// without an extension is announced as octet-stream, `.jpg` and `.jpeg`
/// (in any case) both as `image/jpeg`, and two files whose extensions differ
/// only in ASCII case, or are `jpg` and `jpeg`, are announced alike.
pub proof fn law_mime_follows_the_extension(p: PathModel, q: PathModel)
    ensures
        path_extension_spec(p) is None ==> mime_of(p) == "application/octet-stream"@,
        path_extension_spec(p) matches Some(e) && (ascii_lower_all(e) == "jpg"@ || ascii_lower_all(e) == "jpeg"@)
            ==> mime_of(p) == "image/jpeg"@,
        path_extension_spec(p) matches Some(e) && path_extension_spec(q) matches Some(f) && ascii_lower_all(e)
            == ascii_lower_all(f) ==> mime_of(p) == mime_of(q),
        path_extension_spec(p) matches Some(e) && path_extension_spec(q) matches Some(f) && ascii_lower_all(e)
            == "jpg"@ && ascii_lower_all(f) == "jpeg"@ ==> mime_of(p) == mime_of(q),
{
    reveal_strlit("png");
    reveal_strlit("jpg");
    reveal_strlit("jpeg");
    assert("jpg"@[0] != "png"@[0]);
    assert("jpg"@ != "png"@);
    assert("jpeg"@.len() != "png"@.len());
    assert("jpeg"@ != "png"@);
}

/// MIME type by extension for outbound file metadata. Receivers use it only
/// to pick an icon, so a small table and the octet-stream default cover
/// everything a handheld sends.
pub fn mime_for(path: &FsPath) -> (r: &'static str)
    ensures
        r@ == mime_of(path@),
{
    let e = match path_extension(path) {
        Some(x) => lower_ascii(&x),
        None => return "application/octet-stream",
    };
    if chars_equal(&e, "png") {
        "image/png"
    } else if chars_equal(&e, "jpg") || chars_equal(&e, "jpeg") {
        "image/jpeg"
    } else if chars_equal(&e, "gif") {
        "image/gif"
    } else if chars_equal(&e, "webp") {
        "image/webp"
    } else if chars_equal(&e, "bmp") {
        "image/bmp"
    } else if chars_equal(&e, "txt") || chars_equal(&e, "md") || chars_equal(&e, "log")
        || chars_equal(&e, "cfg") || chars_equal(&e, "ini") {
        "text/plain"
    } else if chars_equal(&e, "json") {
        "application/json"
    } else if chars_equal(&e, "pdf") {
        "application/pdf"
    } else if chars_equal(&e, "zip") {
        "application/zip"
    } else if chars_equal(&e, "7z") {
        "application/x-7z-compressed"
    } else if chars_equal(&e, "mp3") {
        "audio/mpeg"
    } else if chars_equal(&e, "ogg") {
        "audio/ogg"
    } else if chars_equal(&e, "wav") {
        "audio/wav"
    } else if chars_equal(&e, "mp4") {
        "video/mp4"
    } else if chars_equal(&e, "mkv") {
        "video/x-matroska"
    } else if chars_equal(&e, "webm") {
        "video/webm"
    } else {
        "application/octet-stream"
    }
}

/// `Path` equality and `starts_with` together: `path` lies strictly inside
/// `dir`.
pub open spec fn is_inside_spec(dir: PathModel, path: PathModel) -> bool {
    path != dir && starts_with_spec(path, dir)
}

/// Is `path` strictly inside `dir`?
pub fn is_inside(dir: &FsPath, path: &FsPath) -> (r: bool)
    ensures
        r == is_inside_spec(dir@, path@),
{
    !path.same(dir) && path.starts_with(dir)
}

/// The last component of a path, or the whole path's text when it has none.
pub open spec fn base_name_spec(p: PathModel) -> Seq<char> {
    match file_name_spec(p) {
        Some(n) => n,
        None => display_spec(p),
    }
}

/// The last component of `path`, or the whole path when it has none.
pub fn base_name(path: &FsPath) -> (r: String)
    ensures
        r@ == base_name_spec(path@),
{
    match path.file_name() {
        Some(n) => n,
        None => path.to_path_string(),
    }
}

/// The sibling a file streams into before its final rename: the path's text
/// with `.<tag>.part` appended.
pub open spec fn part_path_spec(p: PathModel, tag: Seq<char>) -> PathModel {
    parse_spec(display_spec(p) + seq!['.'] + tag + seq!['.', 'p', 'a', 'r', 't'])
}

/// Sibling path the file streams into before the final rename. `tag` is the
/// slot's own, so the path can never be another file's destination.
pub fn part_path(path: &FsPath, tag: &str) -> (r: FsPath)
    ensures
        r@ == part_path_spec(path@, tag@),
{
    let mut text = path.to_path_string();
    let ghost shown = text@;
    text.push('.');
    text.append(tag);
    text.push('.');
    text.push('p');
    text.push('a');
    text.push('r');
    text.push('t');
    assert(text@ == shown + seq!['.'] + tag@ + seq!['.', 'p', 'a', 'r', 't']);
    FsPath::parse(text.as_str())
}


/// The decimal digits of `n`.
pub open spec fn decimal_spec(n: nat) -> Seq<char>
    decreases n,
{
    if n < 10 {
        seq![((48 + n) as u32) as char]
    } else {
        decimal_spec(n / 10).push(((48 + n % 10) as u32) as char)
    }
}

/// `n` in decimal.
pub(crate) fn decimal(n: u64) -> (r: Vec<char>)
    ensures
        r@ == decimal_spec(n as nat),
    decreases n,
{
    let d = ((48u8 + (n % 10) as u8) as char);
    assert(d == ((48 + (n % 10) as nat) as u32) as char);
    if n < 10 {
        let mut v: Vec<char> = Vec::new();
        v.push(d);
        v
    } else {
        let mut v = decimal(n / 10);
        v.push(d);
        v
    }
}

/// The name tried on the `attempt`th go: the name itself first, then
/// `stem (N)ext` for N = 1, 2, …
pub open spec fn candidate_name(name: Seq<char>, attempt: nat) -> Seq<char> {
    if attempt == 0 {
        name
    } else {
        split_extension_spec(name).0 + seq![' ', '('] + decimal_spec(attempt) + seq![')']
            + split_extension_spec(name).1
    }
}

/// Whether the paths in `s` include one equal to `p`.
pub open spec fn paths_contain(s: Seq<FsPath>, p: PathModel) -> bool {
    exists|k: int| 0 <= k < s.len() && #[trigger] s[k]@ == p
}

/// Whether some path of `v` equals `p`.
pub fn contains_path(v: &Vec<FsPath>, p: &FsPath) -> (r: bool)
    ensures
        r == paths_contain(v@, p@),
{
    let mut i: usize = 0;
    while i < v.len()
        invariant
            i <= v.len(),
            forall|k: int| 0 <= k < i ==> v@[k]@ != p@,
        decreases v.len() - i,
    {
        if v[i].same(p) {
            return true;
        }
        i += 1;
    }
    false
}

/// What the disk holds at a path, as far as a destination cares.
#[derive(Clone, Copy, PartialEq, Eq, Structural)]
pub enum DiskEntry {
    /// Nothing.
    Absent,
    /// A directory.
    Directory,
    /// Something that is not a directory.
    Other,
}

/// A candidate destination is free when this session has not claimed it
/// and the disk lets it be written: with `overwrite` only a directory is in
/// the way (a file cannot be renamed onto one), otherwise anything is.
pub open spec fn is_free_spec(
    taken: Seq<FsPath>,
    p: PathModel,
    overwrite: bool,
    disk: DiskEntry,
) -> bool {
    !paths_contain(taken, p) && if overwrite {
        disk != DiskEntry::Directory
    } else {
        disk == DiskEntry::Absent
    }
}

/// Whether `p` is free to save at, given what the disk holds there.
pub fn is_free(taken: &Vec<FsPath>, p: &FsPath, overwrite: bool, disk: DiskEntry) -> (r: bool)
    ensures
        r == is_free_spec(taken@, p@, overwrite, disk),
{
    !contains_path(taken, p) && if overwrite {
        disk != DiskEntry::Directory
    } else {
        disk == DiskEntry::Absent
    }
}

/// The path tried on the `attempt`th go.
pub fn dest_candidate(dir: &FsPath, name: &str, attempt: u32) -> (p: FsPath)
    ensures
        p@ == join_spec(dir@, candidate_name(name@, attempt as nat)),
{
    if attempt == 0 {
        return dir.join(name);
    }
    let cs = chars_of(name);
    let (stem, ext) = split_extension(&cs);
    let mut v = stem;
    v.push(' ');
    v.push('(');
    let digits = decimal(attempt as u64);
    let mut v = concat(&v, &digits);
    v.push(')');
    let v = concat(&v, &ext);
    assert(v@ == candidate_name(name@, attempt as nat));
    let s = string_of(&v);
    dir.join(s.as_str())
}

/// Asks the disk what is at `p`.
fn probe(p: &FsPath) -> DiskEntry {
    let text = p.to_path_string();
    if path_is_dir(text.as_str()) {
        DiskEntry::Directory
    } else if path_exists(text.as_str()) {
        DiskEntry::Other
    } else {
        DiskEntry::Absent
    }
}

/// Candidate `i` is the first free one, by the disk's answers `disk` for
/// candidates `0..=i`: it is free, and none before it was.
pub open spec fn first_free_at(
    dir: PathModel,
    name: Seq<char>,
    taken: Seq<FsPath>,
    overwrite: bool,
    disk: Seq<DiskEntry>,
    i: nat,
) -> bool {
    &&& disk.len() == i + 1
    &&& is_free_spec(taken, join_spec(dir, candidate_name(name, i)), overwrite, disk[i as int])
    &&& forall|j: int|
        0 <= j < i ==> !is_free_spec(taken, join_spec(dir, candidate_name(name, j as nat)), overwrite, #[trigger] disk[j])
}

/// No candidate up to `u32::MAX` is free, by the disk's answers `disk`.
pub open spec fn none_free(dir: PathModel, name: Seq<char>, taken: Seq<FsPath>, overwrite: bool, disk: Seq<DiskEntry>) -> bool {
    &&& disk.len() == u32::MAX + 1
    &&& forall|j: int|
        0 <= j <= u32::MAX ==> !is_free_spec(taken, join_spec(dir, candidate_name(name, j as nat)), overwrite, #[trigger] disk[j])
}

/// What one answer of the disk makes of the search for a destination.
pub enum DestStep {
    /// This candidate is free: save here.
    Found(FsPath),
    /// Taken: try this attempt next.
    Next(u32),
    /// Taken, and no attempt is left.
    Exhausted,
}

/// Judges candidate `attempt` by the disk's `answer` for it: free, next
/// attempt, or — after the last attempt — no free name at all.
pub fn dest_step(dir: &FsPath, name: &str, taken: &Vec<FsPath>, overwrite: bool, attempt: u32, answer: DiskEntry) -> (r: DestStep)
    ensures
        ({
            let c = join_spec(dir@, candidate_name(name@, attempt as nat));
            if is_free_spec(taken@, c, overwrite, answer) {
                r matches DestStep::Found(p) && p@ == c
            } else if attempt == u32::MAX {
                r is Exhausted
            } else {
                r matches DestStep::Next(n) && n == attempt + 1
            }
        }),
{
    let candidate = dest_candidate(dir, name, attempt);
    if is_free(taken, &candidate, overwrite, answer) {
        DestStep::Found(candidate)
    } else if attempt == u32::MAX {
        DestStep::Exhausted
    } else {
        DestStep::Next(attempt + 1)
    }
}

/// The path in `dir` to save `name` at. A collision steps the name aside —
/// `name (1).gbc`, `name (2).gbc`, … — unless `overwrite`, which replaces the
/// file on disk. `taken` (other files of this session) steps aside either
/// way. What is on disk is the disk's to say: whatever it says, the result is
/// the first candidate free by its answers, and `None` only when none up to
/// `u32::MAX` is.
pub fn dest_path(dir: &FsPath, name: &str, taken: &Vec<FsPath>, overwrite: bool) -> (r: Option<
    FsPath,
>)
    ensures
        match r {
            Some(p) => exists|disk: Seq<DiskEntry>, i: nat|
                i <= u32::MAX && p@ == join_spec(dir@, candidate_name(name@, i)) && #[trigger] first_free_at(
                    dir@,
                    name@,
                    taken@,
                    overwrite,
                    disk,
                    i,
                ),
            None => exists|disk: Seq<DiskEntry>| #[trigger] none_free(dir@, name@, taken@, overwrite, disk),
        },
        r matches Some(p) ==> !paths_contain(taken@, p@),
{
    let mut attempt: u32 = 0;
    let ghost mut answers: Seq<DiskEntry> = Seq::empty();
    loop
        invariant
            answers.len() == attempt,
            forall|j: int|
                0 <= j < attempt ==> !is_free_spec(
                    taken@,
                    join_spec(dir@, candidate_name(name@, j as nat)),
                    overwrite,
                    #[trigger] answers[j],
                ),
        decreases u32::MAX - attempt,
    {
        let candidate = dest_candidate(dir, name, attempt);
        let disk = probe(&candidate);
        proof {
            answers = answers.push(disk);
        }
        match dest_step(dir, name, taken, overwrite, attempt, disk) {
            DestStep::Found(p) => {
                assert(first_free_at(dir@, name@, taken@, overwrite, answers, attempt as nat));
                return Some(p);
            },
            DestStep::Exhausted => {
                assert forall|j: int| 0 <= j <= u32::MAX implies !is_free_spec(
                    taken@,
                    join_spec(dir@, candidate_name(name@, j as nat)),
                    overwrite,
                    #[trigger] answers[j],
                ) by {
                    if j == attempt {
                        assert(answers[j] == disk);
                    }
                }
                assert(none_free(dir@, name@, taken@, overwrite, answers));
                return None;
            },
            DestStep::Next(next) => {
                attempt = next;
            },
        }
    }
}


/// One row of a directory listing.
pub struct DirEntry {
    pub name: String,
    pub path: FsPath,
    pub is_dir: bool,
    /// Files only; 0 for directories.
    pub size: u64,
}

/// One file of an outbound send. Protocol v2 has no directory of its own, so
/// the files of a sent folder carry their relative path in `name`.
pub struct SendFile {
    pub path: FsPath,
    pub name: String,
    pub size: u64,
}

/// What a set of picked sources expands to.
pub struct SendList {
    pub files: Vec<SendFile>,
    /// The files' sizes added up (to the limit of `u64`).
    pub bytes: u64,
    /// The walk left something out: the file cap, the depth cap, or a folder
    /// that could not be read.
    pub partial: bool,
}

impl SendList {
    /// Nothing to send.
    pub fn new() -> (l: SendList)
        ensures
            l.files@.len() == 0,
            l.bytes == 0,
            !l.partial,
    {
        SendList { files: Vec::new(), bytes: 0, partial: false }
    }

    /// Adds one file.
    pub(crate) fn push(&mut self, path: FsPath, name: String, size: u64)
        ensures
            final(self).files@.len() == old(self).files@.len() + 1,
            forall|i: int| 0 <= i < old(self).files@.len() ==> final(self).files@[i] == old(self).files@[i],
            final(self).files@.last().path@ == path@,
            final(self).files@.last().name@ == name@,
            final(self).files@.last().size == size,
            final(self).bytes == (if old(self).bytes + size <= u64::MAX {
                old(self).bytes + size
            } else {
                u64::MAX as int
            }),
            final(self).partial == old(self).partial,
    {
        self.bytes = self.bytes.saturating_add(size);
        self.files.push(SendFile { path, name, size });
    }
}


/// What the disk says of a path: a directory or a file, and a file's length.
#[derive(Clone, Copy, PartialEq, Eq, Debug, Structural)]
pub struct PathMeta {
    pub is_dir: bool,
    pub len: u64,
}

/// One entry as a directory read returns it: its name and path, its
/// metadata (`None` when that could not be read), and whether it is a
/// symlink (`None` when its type could not be read).
pub struct RawEntry {
    pub name: String,
    pub path: FsPath,
    pub meta: Option<PathMeta>,
    pub symlink: Option<bool>,
}

/// `str::to_lowercase`, the full Unicode lowercase mapping of `s`.
pub uninterp spec fn lowercase_spec(s: Seq<char>) -> Seq<char>;

/// `str::to_lowercase`: the Unicode lowercase of `s`. What each character maps
/// to is Unicode's table, so the result is only named, as a function of `s`.
#[verifier::external_body]
fn to_lowercase(s: &str) -> (r: String)
    ensures
        r@ == lowercase_spec(s@),
{
    s.to_lowercase()
}

/// Whether a directory read's entry is listed: dotfiles are hidden, and so
/// are entries whose metadata or type cannot be read, and symlinks (a looped
/// symlink tree on a card must not hang navigation, nor a folder send).
pub open spec fn listed(e: RawEntry) -> bool {
    &&& !(e.name@.len() > 0 && e.name@[0] == '.')
    &&& e.meta is Some
    &&& e.symlink == Some(false)
}

/// The listing row of an entry.
pub open spec fn row_of_raw(e: RawEntry) -> (Seq<char>, PathModel, bool, u64) {
    let m = e.meta.unwrap();
    (e.name@, e.path@, m.is_dir, if m.is_dir { 0 } else { m.len })
}

/// A row as the contracts see it: name, path, directory, size.
pub type RowModel = (Seq<char>, PathModel, bool, u64);

/// The model of a listing row.
pub open spec fn dir_entry_model(e: DirEntry) -> RowModel {
    (e.name@, e.path@, e.is_dir, e.size)
}

/// The sort key of a row: directories first, then the lowercase name.
pub open spec fn sort_key(r: RowModel) -> Seq<u32> {
    seq![if r.2 { 0u32 } else { 1u32 }] + lowercase_spec(r.0).map_values(|c: char| c as u32)
}

/// `x` placed into `s` after every row that does not sort after it, so rows
/// with equal keys keep their order.
pub open spec fn insert_sorted(s: Seq<RowModel>, x: RowModel) -> Seq<RowModel>
    decreases s.len(),
{
    if s.len() == 0 {
        seq![x]
    } else if key_lt(sort_key(x), sort_key(s[0])) {
        seq![x] + s
    } else {
        seq![s[0]] + insert_sorted(s.drop_first(), x)
    }
}

/// The stable sort of `s` by `sort_key`.
pub open spec fn sort_rows(s: Seq<RowModel>) -> Seq<RowModel>
    decreases s.len(),
{
    if s.len() == 0 {
        s
    } else {
        insert_sorted(sort_rows(s.drop_last()), s.last())
    }
}

/// The listed entries of a read, as rows, in read order.
pub open spec fn listed_rows(raw: Seq<RawEntry>) -> Seq<RowModel>
    decreases raw.len(),
{
    if raw.len() == 0 {
        Seq::empty()
    } else if listed(raw.last()) {
        listed_rows(raw.drop_last()).push(row_of_raw(raw.last()))
    } else {
        listed_rows(raw.drop_last())
    }
}

/// Rows in order of their keys.
pub open spec fn rows_sorted(s: Seq<RowModel>) -> bool {
    forall|i: int, j: int| 0 <= i < j < s.len() ==> !key_lt(sort_key(#[trigger] s[j]), sort_key(#[trigger] s[i]))
}

proof fn lemma_insert_sorted(s: Seq<RowModel>, x: RowModel)
    requires
        rows_sorted(s),
    ensures
        rows_sorted(insert_sorted(s, x)),
        insert_sorted(s, x).len() == s.len() + 1,
        forall|i: int| 0 <= i < insert_sorted(s, x).len() ==> (#[trigger] insert_sorted(s, x)[i] == x || s.contains(insert_sorted(s, x)[i])),
    decreases s.len(),
{
    if s.len() == 0 {
    } else if key_lt(sort_key(x), sort_key(s[0])) {
        let t = seq![x] + s;
        assert forall|i: int, j: int| 0 <= i < j < t.len() implies !key_lt(sort_key(#[trigger] t[j]), sort_key(#[trigger] t[i])) by {
            if i == 0 {
                assert(t[j] == s[j - 1]);
                if j > 1 {
                    assert(!key_lt(sort_key(s[j - 1]), sort_key(s[0])));
                    lemma_key_lt_total(sort_key(s[j - 1]), sort_key(s[0]));
                    if key_lt(sort_key(s[j - 1]), sort_key(x)) {
                        lemma_key_lt_transitive(sort_key(s[j - 1]), sort_key(x), sort_key(s[0]));
                    }
                } else {
                    lemma_key_lt_asymmetric(sort_key(x), sort_key(s[0]));
                }
            } else {
                assert(t[i] == s[i - 1] && t[j] == s[j - 1]);
            }
        }
        assert forall|i: int| 0 <= i < t.len() implies (#[trigger] t[i] == x || s.contains(t[i])) by {
            if i > 0 {
                assert(t[i] == s[i - 1]);
            }
        }
    } else {
        let rest = s.drop_first();
        assert(rows_sorted(rest)) by {
            assert forall|i: int, j: int| 0 <= i < j < rest.len() implies !key_lt(sort_key(#[trigger] rest[j]), sort_key(#[trigger] rest[i])) by {
                assert(rest[i] == s[i + 1] && rest[j] == s[j + 1]);
            }
        }
        lemma_insert_sorted(rest, x);
        let inner = insert_sorted(rest, x);
        let t = seq![s[0]] + inner;
        assert forall|i: int, j: int| 0 <= i < j < t.len() implies !key_lt(sort_key(#[trigger] t[j]), sort_key(#[trigger] t[i])) by {
            if i == 0 {
                assert(t[j] == inner[j - 1]);
                if inner[j - 1] != x {
                    assert(rest.contains(inner[j - 1]));
                    let k = choose|k: int| 0 <= k < rest.len() && rest[k] == inner[j - 1];
                    assert(rest[k] == s[k + 1]);
                }
            } else {
                assert(t[i] == inner[i - 1] && t[j] == inner[j - 1]);
            }
        }
        assert forall|i: int| 0 <= i < t.len() implies (#[trigger] t[i] == x || s.contains(t[i])) by {
            if i == 0 {
                assert(s[0] == t[0]);
            } else {
                assert(t[i] == inner[i - 1]);
                if inner[i - 1] != x {
                    let k = choose|k: int| 0 <= k < rest.len() && rest[k] == inner[i - 1];
                    assert(s[k + 1] == t[i]);
                }
            }
        }
    }
}

/// The sort leaves rows in order of their keys.
pub proof fn lemma_sort_rows_sorted(s: Seq<RowModel>)
    ensures
        rows_sorted(sort_rows(s)),
        sort_rows(s).len() == s.len(),
    decreases s.len(),
{
    if s.len() > 0 {
        lemma_sort_rows_sorted(s.drop_last());
        lemma_insert_sorted(sort_rows(s.drop_last()), s.last());
    }
}

/// The key of a row, computed.
fn key_of(e: &DirEntry) -> (k: Vec<u32>)
    ensures
        k@ == sort_key(dir_entry_model(*e)),
{
    let lower = chars_of(to_lowercase(e.name.as_str()).as_str());
    let mut k: Vec<u32> = Vec::new();
    k.push(if e.is_dir { 0 } else { 1 });
    let mut i: usize = 0;
    while i < lower.len()
        invariant
            i <= lower.len(),
            k@ == seq![if e.is_dir { 0u32 } else { 1u32 }] + lower@.take(i as int).map_values(|c: char| c as u32),
        decreases lower.len() - i,
    {
        k.push(lower[i] as u32);
        assert(lower@.take(i + 1) == lower@.take(i as int).push(lower@[i as int]));
        i += 1;
    }
    assert(lower@.take(lower.len() as int) == lower@);
    k
}

/// Whether `a` sorts strictly before `b`.
fn keys_before(a: &Vec<u32>, b: &Vec<u32>) -> (r: bool)
    ensures
        r == key_lt(a@, b@),
{
    let mut i: usize = 0;
    assert(a@.skip(0) == a@);
    assert(b@.skip(0) == b@);
    while i < a.len() && i < b.len()
        invariant
            i <= a.len(),
            i <= b.len(),
            key_lt(a@, b@) == key_lt(a@.skip(i as int), b@.skip(i as int)),
        decreases a.len() - i,
    {
        assert(a@.skip(i as int)[0] == a@[i as int]);
        assert(b@.skip(i as int)[0] == b@[i as int]);
        if a[i] != b[i] {
            return a[i] < b[i];
        }
        assert(a@.skip(i as int).drop_first() == a@.skip(i + 1));
        assert(b@.skip(i as int).drop_first() == b@.skip(i + 1));
        i += 1;
    }
    a.len() < b.len()
}

/// The rows of `kept`, as the contracts see them.
pub open spec fn row_models(kept: Seq<DirEntry>) -> Seq<RowModel> {
    kept.map_values(|e: DirEntry| dir_entry_model(e))
}

/// Where a row with key `k` goes among `kept`: after every row that does not
/// sort after it.
fn insertion_point(kept: &Vec<DirEntry>, keys: &Vec<Vec<u32>>, k: &Vec<u32>, Ghost(model): Ghost<RowModel>) -> (j: usize)
    requires
        keys@.len() == kept@.len(),
        forall|a: int| 0 <= a < keys@.len() ==> #[trigger] keys@[a]@ == sort_key(dir_entry_model(kept@[a])),
        k@ == sort_key(model),
    ensures
        j <= kept@.len(),
        insert_sorted(row_models(kept@), model) == row_models(kept@).take(j as int) + (seq![model] + row_models(kept@).skip(j as int)),
{
    let ghost s = row_models(kept@);
    let mut j: usize = 0;
    assert(s.take(0) + s.skip(0) == s);
    while j < kept.len() && !keys_before(k, &keys[j])
        invariant
            j <= kept.len(),
            keys@.len() == kept@.len(),
            s == row_models(kept@),
            forall|a: int| 0 <= a < keys@.len() ==> #[trigger] keys@[a]@ == sort_key(dir_entry_model(kept@[a])),
            k@ == sort_key(model),
            insert_sorted(s, model) == s.take(j as int) + insert_sorted(s.skip(j as int), model),
        decreases kept.len() - j,
    {
        assert(s.skip(j as int)[0] == s[j as int]);
        assert(s.skip(j as int).drop_first() == s.skip(j + 1));
        assert(s.take(j + 1) == s.take(j as int).push(s[j as int]));
        assert(keys@[j as int]@ == sort_key(s[j as int]));
        assert(s.take(j as int) + (seq![s[j as int]] + insert_sorted(s.skip(j + 1), model)) == s.take(j + 1)
            + insert_sorted(s.skip(j + 1), model));
        j += 1;
    }
    proof {
        if j < kept.len() {
            assert(keys@[j as int]@ == sort_key(s[j as int]));
            assert(s.skip(j as int)[0] == s[j as int]);
        } else {
            assert(s.skip(j as int).len() == 0);
        }
    }
    j
}

proof fn lemma_listed_step(raw: Seq<RawEntry>, i: int)
    requires
        0 <= i < raw.len(),
    ensures
        listed(raw[i]) ==> sort_rows(listed_rows(raw.take(i + 1))) == insert_sorted(
            sort_rows(listed_rows(raw.take(i))),
            row_of_raw(raw[i]),
        ),
        !listed(raw[i]) ==> listed_rows(raw.take(i + 1)) == listed_rows(raw.take(i)),
{
    assert(raw.take(i + 1).drop_last() == raw.take(i));
    assert(raw.take(i + 1).last() == raw[i]);
    if listed(raw[i]) {
        let prev = listed_rows(raw.take(i));
        assert(listed_rows(raw.take(i + 1)) == prev.push(row_of_raw(raw[i])));
        assert(prev.push(row_of_raw(raw[i])).drop_last() == prev);
    }
}

/// Whether name `a` comes strictly before name `b` in character order: `a`
/// is a proper prefix of `b`, or at the first character where they differ
/// `a`'s is the smaller.
pub open spec fn name_before(a: Seq<char>, b: Seq<char>) -> bool {
    exists|k: int|
        #![trigger a.take(k), b.take(k)]
        0 <= k <= a.len() && k < b.len() && a.take(k) == b.take(k) && (k == a.len() || (a[k] as u32) < (b[k] as u32))
}

proof fn lemma_name_before_is_key_lt(a: Seq<char>, b: Seq<char>, k: int)
    requires
        0 <= k <= a.len(),
        k < b.len(),
        a.take(k) == b.take(k),
        k == a.len() || (a[k] as u32) < (b[k] as u32),
    ensures
        key_lt(a.map_values(|c: char| c as u32), b.map_values(|c: char| c as u32)),
    decreases k,
{
    let ma = a.map_values(|c: char| c as u32);
    let mb = b.map_values(|c: char| c as u32);
    if k == 0 {
        if a.len() > 0 {
            assert(ma[0] < mb[0]);
        }
    } else {
        assert(a[0] == a.take(k)[0]);
        assert(b[0] == b.take(k)[0]);
        assert(ma[0] == mb[0]);
        assert(a.drop_first().take(k - 1) =~= a.take(k).drop_first());
        assert(b.drop_first().take(k - 1) =~= b.take(k).drop_first());
        lemma_name_before_is_key_lt(a.drop_first(), b.drop_first(), k - 1);
        assert(ma.drop_first() =~= a.drop_first().map_values(|c: char| c as u32));
        assert(mb.drop_first() =~= b.drop_first().map_values(|c: char| c as u32));
    }
}

/// The order of a listing, whatever the directory read holds: every folder
/// comes before every file, and among folders, as among files, no name comes
/// after one that it precedes in character order once both are lowercased
/// (rows whose lowercased names are equal keep their read order).
pub proof fn law_listing_puts_folders_first_then_names_in_order(raw: Seq<RawEntry>)
    ensures
        ({
            let rows = sort_rows(listed_rows(raw));
            &&& forall|i: int, j: int| 0 <= i < j < rows.len() ==> !(!(#[trigger] rows[i]).2 && (#[trigger] rows[j]).2)
            &&& forall|i: int, j: int|
                0 <= i < j < rows.len() && (#[trigger] rows[i]).2 == (#[trigger] rows[j]).2 ==> !name_before(
                    lowercase_spec(rows[j].0),
                    lowercase_spec(rows[i].0),
                )
        }),
{
    let rows = sort_rows(listed_rows(raw));
    lemma_sort_rows_sorted(listed_rows(raw));
    assert forall|i: int, j: int| 0 <= i < j < rows.len() implies !(!(#[trigger] rows[i]).2 && (#[trigger] rows[j]).2) by {
        assert(!key_lt(sort_key(rows[j]), sort_key(rows[i])));
        if !rows[i].2 && rows[j].2 {
            assert(sort_key(rows[j])[0] == 0u32);
            assert(sort_key(rows[i])[0] == 1u32);
        }
    }
    assert forall|i: int, j: int|
        0 <= i < j < rows.len() && (#[trigger] rows[i]).2 == (#[trigger] rows[j]).2 implies !name_before(
        lowercase_spec(rows[j].0),
        lowercase_spec(rows[i].0),
    ) by {
        assert(!key_lt(sort_key(rows[j]), sort_key(rows[i])));
        let a = lowercase_spec(rows[j].0);
        let b = lowercase_spec(rows[i].0);
        if name_before(a, b) {
            let k = choose|k: int|
                #![trigger a.take(k), b.take(k)]
                0 <= k <= a.len() && k < b.len() && a.take(k) == b.take(k) && (k == a.len() || (a[k] as u32) < (b[k] as u32));
            lemma_name_before_is_key_lt(a, b, k);
            let ka = sort_key(rows[j]);
            let kb = sort_key(rows[i]);
            assert(ka[0] == kb[0]);
            assert(ka.drop_first() =~= a.map_values(|c: char| c as u32));
            assert(kb.drop_first() =~= b.map_values(|c: char| c as u32));
        }
    }
}

/// A directory read turned into its listing: dotfiles, entries whose
/// metadata or type cannot be read, and symlinks left out; directories first,
/// then case-insensitive name order, entries of equal key in read order; a
/// directory's size is 0.
pub fn listing(raw: &Vec<RawEntry>) -> (r: Vec<DirEntry>)
    ensures
        row_models(r@) == sort_rows(listed_rows(raw@)),
        rows_sorted(row_models(r@)),
{
    let mut kept: Vec<DirEntry> = Vec::new();
    let mut keys: Vec<Vec<u32>> = Vec::new();
    let mut i: usize = 0;
    assert(row_models(kept@) == Seq::<RowModel>::empty());
    while i < raw.len()
        invariant
            i <= raw.len(),
            keys@.len() == kept@.len(),
            forall|a: int| 0 <= a < keys@.len() ==> #[trigger] keys@[a]@ == sort_key(dir_entry_model(kept@[a])),
            row_models(kept@) == sort_rows(listed_rows(raw@.take(i as int))),
        decreases raw.len() - i,
    {
        let e = &raw[i];
        proof {
            lemma_listed_step(raw@, i as int);
        }
        let hidden = e.name.as_str().unicode_len() > 0 && e.name.as_str().get_char(0) == '.';
        let keep = !hidden && e.meta.is_some() && match e.symlink {
            Some(false) => true,
            _ => false,
        };
        assert(keep == listed(*e));
        if keep {
            let m = e.meta.unwrap();
            let row = DirEntry {
                name: e.name.clone(),
                path: e.path.duplicate(),
                is_dir: m.is_dir,
                size: if m.is_dir { 0 } else { m.len },
            };
            let ghost model = dir_entry_model(row);
            assert(model == row_of_raw(*e));
            let k = key_of(&row);
            let j = insertion_point(&kept, &keys, &k, Ghost(model));
            let ghost s = row_models(kept@);
            let ghost old_kept = kept@;
            let ghost old_keys = keys@;
            kept.insert(j, row);
            keys.insert(j, k);
            assert(kept@ == old_kept.insert(j as int, row));
            assert(row_models(kept@) == s.take(j as int) + (seq![model] + s.skip(j as int)));
            assert forall|a: int| 0 <= a < keys@.len() implies #[trigger] keys@[a]@ == sort_key(dir_entry_model(kept@[a])) by {
                if a < j {
                    assert(keys@[a] == old_keys[a] && kept@[a] == old_kept[a]);
                } else if a > j {
                    assert(keys@[a] == old_keys[a - 1] && kept@[a] == old_kept[a - 1]);
                }
            }
        }
        i += 1;
    }
    assert(raw@.take(raw.len() as int) == raw@);
    proof {
        lemma_sort_rows_sorted(listed_rows(raw@));
    }
    kept
}

} // verus!
