//! Character classes and string building blocks shared by the name sanitizers.

use vstd::prelude::*;

verus! {

/// `char::is_control`: the Unicode general category Cc, which is exactly
/// U+0000..=U+001F and U+007F..=U+009F.
pub open spec fn is_control_spec(c: char) -> bool {
    (c as u32) <= 0x1F || (0x7F <= (c as u32) && (c as u32) <= 0x9F)
}

/// `char::is_whitespace`: the Unicode `White_Space` property.
pub open spec fn is_whitespace_spec(c: char) -> bool {
    let u = c as u32;
    ||| (0x09 <= u && u <= 0x0D)
    ||| u == 0x20
    ||| u == 0x85
    ||| u == 0xA0
    ||| u == 0x1680
    ||| (0x2000 <= u && u <= 0x200A)
    ||| u == 0x2028
    ||| u == 0x2029
    ||| u == 0x202F
    ||| u == 0x205F
    ||| u == 0x3000
}

/// Whether `c` is a control character.
pub fn is_control(c: char) -> (r: bool)
    ensures
        r == is_control_spec(c),
{
    let u = c as u32;
    u <= 0x1F || (0x7F <= u && u <= 0x9F)
}

/// Whether `c` is Unicode whitespace.
pub fn is_whitespace(c: char) -> (r: bool)
    ensures
        r == is_whitespace_spec(c),
{
    let u = c as u32;
    (0x09 <= u && u <= 0x0D) || u == 0x20 || u == 0x85 || u == 0xA0 || u == 0x1680 || (0x2000
        <= u && u <= 0x200A) || u == 0x2028 || u == 0x2029 || u == 0x202F || u == 0x205F || u
        == 0x3000
}

/// Bytes `c` takes in UTF-8.
pub open spec fn char_width(c: char) -> nat {
    let u = c as u32;
    if u < 0x80 {
        1
    } else if u < 0x800 {
        2
    } else if u < 0x10000 {
        3
    } else {
        4
    }
}

/// Bytes `s` takes in UTF-8.
pub open spec fn utf8_len(s: Seq<char>) -> nat
    decreases s.len(),
{
    if s.len() == 0 {
        0
    } else {
        utf8_len(s.drop_last()) + char_width(s.last())
    }
}

/// UTF-8 width of one character.
pub fn char_width_of(c: char) -> (w: usize)
    ensures
        w == char_width(c),
        1 <= w <= 4,
{
    let u = c as u32;
    if u < 0x80 {
        1
    } else if u < 0x800 {
        2
    } else if u < 0x10000 {
        3
    } else {
        4
    }
}

/// `String::push`: appends one character.
pub assume_specification[ String::push ](s: &mut String, ch: char)
    ensures
        final(s)@ == old(s)@.push(ch),
;

/// The characters of `s`, in order.
pub fn chars_of(s: &str) -> (v: Vec<char>)
    ensures
        v@ == s@,
{
    let n = s.unicode_len();
    let mut v: Vec<char> = Vec::new();
    let mut i: usize = 0;
    while i < n
        invariant
            n == s@.len(),
            i <= n,
            v@ == s@.subrange(0, i as int),
        decreases n - i,
    {
        v.push(s.get_char(i));
        i += 1;
    }
    v
}

/// A `String` holding exactly `cs`.
pub fn string_of(cs: &Vec<char>) -> (s: String)
    ensures
        s@ == cs@,
{
    let mut s = String::new();
    let mut i: usize = 0;
    while i < cs.len()
        invariant
            i <= cs.len(),
            s@ == cs@.subrange(0, i as int),
        decreases cs.len() - i,
    {
        s.push(cs[i]);
        i += 1;
    }
    s
}


/// Which characters split a string into segments.
#[derive(Clone, Copy, PartialEq, Eq, Structural)]
pub enum Separators {
    /// `/` alone: how a path splits into components.
    Slash,
    /// `/`, `\` and NUL: how a sender-supplied name splits.
    Any,
}

/// Whether `c` separates segments under `seps`.
pub open spec fn is_sep(c: char, seps: Separators) -> bool {
    match seps {
        Separators::Slash => c == '/',
        Separators::Any => c == '/' || c == '\\' || c == '\0',
    }
}

/// The pieces of `s` between separators, as `str::split` yields them: there is
/// always at least one, and a separator at either end yields an empty one.
pub open spec fn segments(s: Seq<char>, seps: Separators) -> Seq<Seq<char>>
    decreases s.len(),
{
    if s.len() == 0 {
        seq![Seq::<char>::empty()]
    } else {
        let t = segments(s.drop_last(), seps);
        if is_sep(s.last(), seps) {
            t.push(Seq::<char>::empty())
        } else {
            t.update(t.len() - 1, t.last().push(s.last()))
        }
    }
}

/// There is always at least one segment.
pub proof fn lemma_segments_nonempty(s: Seq<char>, seps: Separators)
    ensures
        segments(s, seps).len() >= 1,
    decreases s.len(),
{
    if s.len() > 0 {
        lemma_segments_nonempty(s.drop_last(), seps);
    }
}

/// No segment holds a separator.
pub proof fn lemma_segments_have_no_separator(s: Seq<char>, seps: Separators)
    ensures
        forall|i: int, j: int|
            0 <= i < segments(s, seps).len() && 0 <= j < segments(s, seps)[i].len() ==> !is_sep(
                #[trigger] segments(s, seps)[i][j],
                seps,
            ),
    decreases s.len(),
{
    if s.len() > 0 {
        lemma_segments_nonempty(s.drop_last(), seps);
        lemma_segments_have_no_separator(s.drop_last(), seps);
        let t = segments(s.drop_last(), seps);
        if !is_sep(s.last(), seps) {
            assert forall|i: int, j: int|
                0 <= i < segments(s, seps).len() && 0 <= j < segments(s, seps)[i].len() implies !is_sep(
                #[trigger] segments(s, seps)[i][j],
                seps,
            ) by {
                if i == t.len() - 1 {
                    if j < t.last().len() {
                        assert(segments(s, seps)[i][j] == t[i][j]);
                    }
                } else {
                    assert(segments(s, seps)[i] == t[i]);
                }
            }
        } else {
            assert forall|i: int, j: int|
                0 <= i < segments(s, seps).len() && 0 <= j < segments(s, seps)[i].len() implies !is_sep(
                #[trigger] segments(s, seps)[i][j],
                seps,
            ) by {
                assert(segments(s, seps)[i] == t[i]);
            }
        }
    }
}

/// Splitting text joined at a separator splits each side.
pub proof fn lemma_segments_concat(a: Seq<char>, c: char, b: Seq<char>, seps: Separators)
    requires
        is_sep(c, seps),
    ensures
        segments(a + seq![c] + b, seps) == segments(a, seps) + segments(b, seps),
    decreases b.len(),
{
    let s = a + seq![c] + b;
    if b.len() == 0 {
        assert(s.drop_last() == a);
        assert(segments(b, seps) == seq![Seq::<char>::empty()]);
    } else {
        assert(s.drop_last() == a + seq![c] + b.drop_last());
        assert(s.last() == b.last());
        lemma_segments_concat(a, c, b.drop_last(), seps);
        lemma_segments_nonempty(b.drop_last(), seps);
        let t = segments(a, seps) + segments(b.drop_last(), seps);
        let tb = segments(b.drop_last(), seps);
        if is_sep(b.last(), seps) {
            assert(t.push(Seq::<char>::empty()) == segments(a, seps) + tb.push(Seq::<char>::empty()));
        } else {
            assert(t.last() == tb.last());
            assert(t.update(t.len() - 1, t.last().push(b.last())) == segments(a, seps) + tb.update(
                tb.len() - 1,
                tb.last().push(b.last()),
            ));
        }
    }
}

/// Text without a separator is one segment.
pub proof fn lemma_segments_single(b: Seq<char>, seps: Separators)
    requires
        forall|i: int| 0 <= i < b.len() ==> !is_sep(#[trigger] b[i], seps),
    ensures
        segments(b, seps) == seq![b],
    decreases b.len(),
{
    if b.len() > 0 {
        let d = b.drop_last();
        assert forall|i: int| 0 <= i < d.len() implies !is_sep(#[trigger] d[i], seps) by {
            assert(d[i] == b[i]);
        }
        lemma_segments_single(d, seps);
        assert(!is_sep(b[b.len() - 1], seps));
        assert(d.push(b.last()) == b);
        assert(seq![d].update(0, d.push(b.last())) == seq![b]);
        assert(segments(b, seps) == segments(d, seps).update(0, segments(d, seps).last().push(b.last())));
    } else {
        assert(b == Seq::<char>::empty());
    }
}

/// Whether `c` separates segments under `seps`.
pub fn is_separator(c: char, seps: Separators) -> (r: bool)
    ensures
        r == is_sep(c, seps),
{
    match seps {
        Separators::Slash => c == '/',
        Separators::Any => c == '/' || c == '\\' || c == '\0',
    }
}

/// The views of a vector of character vectors.
pub open spec fn views(v: Seq<Vec<char>>) -> Seq<Seq<char>> {
    v.map_values(|x: Vec<char>| x@)
}

/// Splits `s` into its segments.
pub fn split(s: &Vec<char>, seps: Separators) -> (r: Vec<Vec<char>>)
    ensures
        views(r@) == segments(s@, seps),
{
    let mut done: Vec<Vec<char>> = Vec::new();
    let mut cur: Vec<char> = Vec::new();
    let mut i: usize = 0;
    while i < s.len()
        invariant
            i <= s.len(),
            views(done@).push(cur@) == segments(s@.subrange(0, i as int), seps),
        decreases s.len() - i,
    {
        let c = s[i];
        let ghost pre = s@.subrange(0, i as int);
        assert(s@.subrange(0, i + 1).drop_last() == pre);
        if is_separator(c, seps) {
            let finished = cur;
            done.push(finished);
            cur = Vec::new();
            assert(views(done@) == views(done@).drop_last().push(finished@));
        } else {
            cur.push(c);
            assert(views(done@).push(cur@) == segments(pre, seps).update(
                segments(pre, seps).len() - 1,
                segments(pre, seps).last().push(c),
            ));
        }
        i += 1;
    }
    assert(s@.subrange(0, s.len() as int) == s@);
    done.push(cur);
    done
}


/// The characters `v[from..to]`.
pub fn subvec(v: &Vec<char>, from: usize, to: usize) -> (r: Vec<char>)
    requires
        from <= to <= v.len(),
    ensures
        r@ == v@.subrange(from as int, to as int),
{
    let mut r: Vec<char> = Vec::new();
    let mut i = from;
    while i < to
        invariant
            from <= i <= to <= v.len(),
            r@ == v@.subrange(from as int, i as int),
        decreases to - i,
    {
        r.push(v[i]);
        i += 1;
    }
    r
}

/// `a` followed by `b`.
pub fn concat(a: &Vec<char>, b: &Vec<char>) -> (r: Vec<char>)
    ensures
        r@ == a@ + b@,
{
    let mut r = subvec(a, 0, a.len());
    let mut i: usize = 0;
    while i < b.len()
        invariant
            i <= b.len(),
            r@ == a@ + b@.subrange(0, i as int),
        decreases b.len() - i,
    {
        r.push(b[i]);
        i += 1;
    }
    assert(a@.subrange(0, a@.len() as int) == a@);
    assert(b@.subrange(0, b@.len() as int) == b@);
    r
}

/// UTF-8 length is additive.
pub proof fn lemma_utf8_len_concat(a: Seq<char>, b: Seq<char>)
    ensures
        utf8_len(a + b) == utf8_len(a) + utf8_len(b),
    decreases b.len(),
{
    if b.len() == 0 {
        assert(a + b == a);
    } else {
        lemma_utf8_len_concat(a, b.drop_last());
        assert((a + b).drop_last() == a + b.drop_last());
    }
}

/// A prefix takes no more bytes than the whole.
pub proof fn lemma_utf8_len_prefix(s: Seq<char>, k: int)
    requires
        0 <= k <= s.len(),
    ensures
        utf8_len(s.take(k)) <= utf8_len(s),
    decreases s.len() - k,
{
    if k < s.len() {
        lemma_utf8_len_prefix(s, k + 1);
        assert(s.take(k + 1).drop_last() == s.take(k));
    } else {
        assert(s.take(k) == s);
    }
}

/// Whether `s` fits in `max` bytes of UTF-8.
pub fn fits_in(s: &Vec<char>, max: usize) -> (r: bool)
    ensures
        r == (utf8_len(s@) <= max),
{
    let mut used: usize = 0;
    let mut i: usize = 0;
    while i < s.len()
        invariant
            i <= s.len(),
            used == utf8_len(s@.take(i as int)),
            used <= max,
        decreases s.len() - i,
    {
        let w = char_width_of(s[i]);
        assert(s@.take(i + 1).drop_last() == s@.take(i as int));
        if w > max - used {
            proof {
                lemma_utf8_len_prefix(s@, i + 1);
            }
            return false;
        }
        used = used + w;
        i += 1;
    }
    assert(s@.take(s.len() as int) == s@);
    true
}


/// `s` without leading whitespace.
pub open spec fn trim_ws_front(s: Seq<char>) -> Seq<char>
    decreases s.len(),
{
    if s.len() > 0 && is_whitespace_spec(s[0]) {
        trim_ws_front(s.drop_first())
    } else {
        s
    }
}

/// `s` without trailing whitespace.
pub open spec fn trim_ws_back(s: Seq<char>) -> Seq<char>
    decreases s.len(),
{
    if s.len() > 0 && is_whitespace_spec(s.last()) {
        trim_ws_back(s.drop_last())
    } else {
        s
    }
}

/// `str::trim`: whitespace gone from both ends.
pub open spec fn trim_ws(s: Seq<char>) -> Seq<char> {
    trim_ws_back(trim_ws_front(s))
}

/// `v` with whitespace gone from both ends.
pub fn trim_whitespace(v: &Vec<char>) -> (r: Vec<char>)
    ensures
        r@ == trim_ws(v@),
{
    let mut a: usize = 0;
    assert(v@.subrange(0, v.len() as int) == v@);
    while a < v.len() && is_whitespace(v[a])
        invariant
            a <= v.len(),
            trim_ws_front(v@) == trim_ws_front(v@.subrange(a as int, v.len() as int)),
        decreases v.len() - a,
    {
        assert(v@.subrange(a as int, v.len() as int).drop_first() == v@.subrange(
            a + 1,
            v.len() as int,
        ));
        a += 1;
    }
    let front = subvec(v, a, v.len());
    let mut b: usize = front.len();
    assert(front@.subrange(0, front.len() as int) == front@);
    while b > 0 && is_whitespace(front[b - 1])
        invariant
            b <= front.len(),
            trim_ws_back(front@) == trim_ws_back(front@.subrange(0, b as int)),
        decreases b,
    {
        assert(front@.subrange(0, b as int).drop_last() == front@.subrange(0, b - 1));
        b -= 1;
    }
    subvec(&front, 0, b)
}

} // verus!
