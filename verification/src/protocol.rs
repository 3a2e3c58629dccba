//! LocalSend v2.1 wire types and the random-token helper. One flattened
//! `DeviceInfo` with optionals serves every message that carries device
//! identity. The JSON form lives with the app; this module holds the values and
//! the rules applied to what a peer sends.

use vstd::prelude::*;
use std::collections::BTreeMap;
use crate::text::{
    is_control, is_control_spec, is_whitespace, is_whitespace_spec, string_of, subvec, trim_ws_back,
    trim_ws_front,
};

verus! {

/// The protocol version this app speaks.
pub const PROTOCOL_VERSION: &'static str = "2.1";

/// Where the HTTP API lives.
pub const API_PREFIX: &'static str = "/api/localsend/v2";

/// The protocol-fixed UDP discovery port. The TCP port is ours to choose (the
/// announce carries it); this one every implementation must share.
pub const MULTICAST_PORT: u16 = 53317;

/// Longest peer-supplied name we keep, in characters.
pub const MAX_PEER_NAME_CHARS: usize = 48;

/// A device's identity, as every message that carries one has it.
#[derive(Clone, Debug)]
pub struct DeviceInfo {
    pub alias: String,
    pub version: String,
    pub device_model: Option<String>,
    pub device_type: Option<String>,
    pub fingerprint: String,
    pub port: Option<u16>,
    /// "http" | "https"
    pub protocol: Option<String>,
    pub download: Option<bool>,
    /// Multicast only: `true` asks receivers to respond.
    pub announce: Option<bool>,
}

#[verifier::external_type_specification]
#[verifier::external_body]
pub struct ExJsonValue(serde_json::Value);

/// One file offered in a prepare-upload.
#[derive(Clone, Debug)]
pub struct FileMeta {
    pub id: String,
    pub file_name: String,
    pub size: u64,
    pub file_type: String,
    pub sha256: Option<String>,
    pub preview: Option<String>,
    pub metadata: Option<serde_json::Value>,
}

/// The prepare-upload request: who sends, and the files keyed by id.
#[derive(Clone, Debug)]
pub struct PrepareUploadRequest {
    pub info: DeviceInfo,
    pub files: BTreeMap<String, FileMeta>,
}

/// The prepare-upload answer: the session, and an upload token per file id.
#[derive(Clone, Debug)]
pub struct PrepareUploadResponse {
    pub session_id: String,
    pub files: BTreeMap<String, String>,
}

/// What a character of a peer's name becomes: control characters, which could
/// add lines to a dialog that quotes the name, turn into spaces.
pub open spec fn peer_char(c: char) -> char {
    if is_control_spec(c) {
        ' '
    } else {
        c
    }
}

/// What stands in for a name that arrives empty: `unknown`.
pub open spec fn unnamed() -> Seq<char> {
    seq!['u', 'n', 'k', 'n', 'o', 'w', 'n']
}

/// A peer-supplied name fit to store and to draw: control characters become
/// spaces, the first `MAX_PEER_NAME_CHARS` characters are kept, whitespace is
/// trimmed from both ends, and nothing left reads as `unknown`.
pub open spec fn clamp_peer_name_spec(raw: Seq<char>) -> Seq<char> {
    let n = if raw.len() <= MAX_PEER_NAME_CHARS {
        raw.len() as int
    } else {
        MAX_PEER_NAME_CHARS as int
    };
    let t = trim_ws_back(trim_ws_front(raw.take(n).map_values(|c: char| peer_char(c))));
    if t.len() == 0 {
        unnamed()
    } else {
        t
    }
}

proof fn lemma_trim_ws_front(s: Seq<char>)
    ensures
        trim_ws_front(s) == s.skip(s.len() - trim_ws_front(s).len()),
        trim_ws_front(s).len() <= s.len(),
    decreases s.len(),
{
    if s.len() > 0 && is_whitespace_spec(s[0]) {
        lemma_trim_ws_front(s.drop_first());
        assert(s.drop_first().skip(s.drop_first().len() - trim_ws_front(s).len()) == s.skip(
            s.len() - trim_ws_front(s).len(),
        ));
    } else {
        assert(s.skip(0) == s);
    }
}

proof fn lemma_trim_ws_back(s: Seq<char>)
    ensures
        trim_ws_back(s) == s.take(trim_ws_back(s).len() as int),
        trim_ws_back(s).len() <= s.len(),
    decreases s.len(),
{
    if s.len() > 0 && is_whitespace_spec(s.last()) {
        lemma_trim_ws_back(s.drop_last());
        assert(s.drop_last().take(trim_ws_back(s).len() as int) == s.take(
            trim_ws_back(s).len() as int,
        ));
    } else {
        assert(s.take(s.len() as int) == s);
    }
}

/// What a clamped name is: never empty, at most `MAX_PEER_NAME_CHARS`
/// characters, and free of control characters.
pub proof fn lemma_clamped_name_is_drawable(raw: Seq<char>)
    ensures
        clamp_peer_name_spec(raw).len() > 0,
        clamp_peer_name_spec(raw).len() <= MAX_PEER_NAME_CHARS,
        forall|i: int|
            0 <= i < clamp_peer_name_spec(raw).len() ==> !is_control_spec(
                #[trigger] clamp_peer_name_spec(raw)[i],
            ),
{
    let n = if raw.len() <= MAX_PEER_NAME_CHARS {
        raw.len() as int
    } else {
        MAX_PEER_NAME_CHARS as int
    };
    let m = raw.take(n).map_values(|c: char| peer_char(c));
    let f = trim_ws_front(m);
    lemma_trim_ws_front(m);
    let t = trim_ws_back(f);
    lemma_trim_ws_back(f);
    assert forall|i: int| 0 <= i < t.len() implies !is_control_spec(#[trigger] t[i]) by {
        assert(t[i] == f[i]);
        assert(f[i] == m[m.len() - f.len() + i]);
    }
    let u = unnamed();
    assert forall|i: int| 0 <= i < u.len() implies !is_control_spec(#[trigger] u[i]) by {}
}

proof fn lemma_trim_back_last(s: Seq<char>)
    ensures
        trim_ws_back(s).len() > 0 ==> !is_whitespace_spec(trim_ws_back(s).last()),
    decreases s.len(),
{
    if s.len() > 0 && is_whitespace_spec(s.last()) {
        lemma_trim_back_last(s.drop_last());
    }
}

proof fn lemma_trim_front_head(s: Seq<char>)
    ensures
        trim_ws_front(s).len() > 0 ==> !is_whitespace_spec(trim_ws_front(s)[0]),
    decreases s.len(),
{
    if s.len() > 0 && is_whitespace_spec(s[0]) {
        lemma_trim_front_head(s.drop_first());
    }
}

/// The ends of a clamped name are not whitespace.
proof fn lemma_clamped_ends(raw: Seq<char>)
    ensures
        !is_whitespace_spec(clamp_peer_name_spec(raw)[0]),
        !is_whitespace_spec(clamp_peer_name_spec(raw).last()),
{
    let n = if raw.len() <= MAX_PEER_NAME_CHARS {
        raw.len() as int
    } else {
        MAX_PEER_NAME_CHARS as int
    };
    let m = raw.take(n).map_values(|c: char| peer_char(c));
    let f = trim_ws_front(m);
    let t = trim_ws_back(f);
    lemma_trim_ws_back(f);
    lemma_trim_front_head(m);
    lemma_trim_back_last(f);
    if t.len() > 0 {
        assert(t[0] == f[0]);
        assert(!is_whitespace_spec(t.last()));
    } else {
        assert(unnamed()[0] == 'u');
        assert(unnamed().last() == 'n');
    }
}

/// Clamping is idempotent: a name clamped once comes through a second clamp
/// unchanged, so applying it where a peer's info enters is enough.
pub proof fn law_clamp_is_idempotent(raw: Seq<char>)
    ensures
        clamp_peer_name_spec(clamp_peer_name_spec(raw)) == clamp_peer_name_spec(raw),
{
    let c = clamp_peer_name_spec(raw);
    lemma_clamped_name_is_drawable(raw);
    lemma_clamped_ends(raw);
    let m = c.take(c.len() as int).map_values(|x: char| peer_char(x));
    assert(m == c) by {
        assert forall|i: int| 0 <= i < c.len() implies m[i] == c[i] by {
            assert(!is_control_spec(c[i]));
        }
    }
    assert(trim_ws_front(c) == c);
    assert(trim_ws_back(c) == c);
}

/// A peer-supplied name fit to store and to draw.
pub fn clamp_peer_name(raw: &str) -> (r: String)
    ensures
        r@ == clamp_peer_name_spec(raw@),
        r@.len() > 0,
        r@.len() <= MAX_PEER_NAME_CHARS,
        forall|i: int| 0 <= i < r@.len() ==> !is_control_spec(#[trigger] r@[i]),
{
    proof {
        lemma_clamped_name_is_drawable(raw@);
    }
    let len = raw.unicode_len();
    let n = if len <= MAX_PEER_NAME_CHARS {
        len
    } else {
        MAX_PEER_NAME_CHARS
    };
    let mut cleaned: Vec<char> = Vec::new();
    let mut i: usize = 0;
    while i < n
        invariant
            n <= len == raw@.len(),
            i <= n,
            cleaned@ == raw@.take(i as int).map_values(|c: char| peer_char(c)),
        decreases n - i,
    {
        let c = raw.get_char(i);
        let d = if is_control(c) {
            ' '
        } else {
            c
        };
        cleaned.push(d);
        assert(raw@.take(i + 1) == raw@.take(i as int).push(c));
        i += 1;
    }
    let mut a: usize = 0;
    assert(cleaned@.subrange(0, cleaned.len() as int) == cleaned@);
    while a < cleaned.len() && is_whitespace(cleaned[a])
        invariant
            a <= cleaned.len(),
            trim_ws_front(cleaned@) == trim_ws_front(cleaned@.subrange(a as int, cleaned.len() as int)),
        decreases cleaned.len() - a,
    {
        assert(cleaned@.subrange(a as int, cleaned.len() as int).drop_first() == cleaned@.subrange(
            a + 1,
            cleaned.len() as int,
        ));
        a += 1;
    }
    let front = subvec(&cleaned, a, cleaned.len());
    let mut b: usize = front.len();
    assert(front@.subrange(0, front.len() as int) == front@);
    while b > 0 && is_whitespace(front[b - 1])
        invariant
            b <= front.len(),
            trim_ws_back(front@) == trim_ws_back(front@.subrange(0, b as int)),
        decreases b,
    {
        assert(front@.subrange(0, b as int).drop_last() == front@.subrange(0, b - 1));
        b -= 1;
    }
    if b == 0 {
        let mut u = String::new();
        u.push('u');
        u.push('n');
        u.push('k');
        u.push('n');
        u.push('o');
        u.push('w');
        u.push('n');
        return u;
    }
    string_of(&subvec(&front, 0, b))
}

impl DeviceInfo {
    /// The identity with the names a peer chose clamped: applied once, where
    /// a peer's info enters, so no screen has to.
    pub fn clamped(self) -> (r: DeviceInfo)
        ensures
            r.alias@ == clamp_peer_name_spec(self.alias@),
            match self.device_model {
                Some(m) => r.device_model matches Some(c) && c@ == clamp_peer_name_spec(m@),
                None => r.device_model is None,
            },
            r.version == self.version,
            r.device_type == self.device_type,
            r.fingerprint == self.fingerprint,
            r.port == self.port,
            r.protocol == self.protocol,
            r.download == self.download,
            r.announce == self.announce,
    {
        let mut d = self;
        d.alias = clamp_peer_name(d.alias.as_str());
        d.device_model = match &d.device_model {
            Some(m) => Some(clamp_peer_name(m.as_str())),
            None => None,
        };
        d
    }
}


#[verifier::external_type_specification]
#[verifier::external_body]
pub struct ExRandomError(getrandom::Error);

/// `getrandom::fill`: fills `buf` with bytes from the system's random source.
/// The bytes are chance's, so only their number is stated: the slice keeps its
/// length whatever comes back. An empty slice succeeds at once, without asking
/// the system; whether a non-empty one succeeds is the system's to say.
#[verifier::external_body]
fn fill_random(buf: &mut Vec<u8>) -> (r: Result<(), getrandom::Error>)
    ensures
        final(buf)@.len() == old(buf)@.len(),
        old(buf)@.len() == 0 ==> r is Ok,
{
    getrandom::fill(buf.as_mut_slice())
}

/// The system had no randomness to give.
#[derive(Clone, Copy, PartialEq, Eq, Debug, Structural)]
pub struct RandomUnavailable;

/// The lowercase hex digit for `d` (`0..16`).
pub open spec fn hex_digit(d: nat) -> char {
    if d < 10 {
        ((48 + d) as u32) as char
    } else {
        ((87 + d) as u32) as char
    }
}

/// Each byte as two lowercase hex digits, high nibble first.
pub open spec fn hex_spec(bytes: Seq<u8>) -> Seq<char>
    decreases bytes.len(),
{
    if bytes.len() == 0 {
        Seq::empty()
    } else {
        hex_spec(bytes.drop_last()) + seq![
            hex_digit((bytes.last() / 16) as nat),
            hex_digit((bytes.last() % 16) as nat),
        ]
    }
}

/// A lowercase hex digit.
pub open spec fn is_lower_hex(c: char) -> bool {
    ('0' <= c && c <= '9') || ('a' <= c && c <= 'f')
}

/// Hex text is twice as long as its bytes and made of lowercase hex digits.
pub proof fn lemma_hex_shape(bytes: Seq<u8>)
    ensures
        hex_spec(bytes).len() == 2 * bytes.len(),
        forall|i: int| 0 <= i < hex_spec(bytes).len() ==> is_lower_hex(#[trigger] hex_spec(bytes)[i]),
    decreases bytes.len(),
{
    if bytes.len() > 0 {
        lemma_hex_shape(bytes.drop_last());
        let prev = hex_spec(bytes.drop_last());
        let tail = seq![
            hex_digit((bytes.last() / 16) as nat),
            hex_digit((bytes.last() % 16) as nat),
        ];
        assert forall|i: int| 0 <= i < hex_spec(bytes).len() implies is_lower_hex(
            #[trigger] hex_spec(bytes)[i],
        ) by {
            if i < prev.len() {
                assert(hex_spec(bytes)[i] == prev[i]);
            } else {
                assert(hex_spec(bytes)[i] == tail[i - prev.len()]);
            }
        }
    }
}

fn hex_char(d: u8) -> (c: char)
    requires
        d < 16,
    ensures
        c == hex_digit(d as nat),
{
    if d < 10 {
        (48u8 + d) as char
    } else {
        (87u8 + d) as char
    }
}

/// `bytes` as lowercase hex, two digits a byte.
pub fn hex_lower(bytes: &Vec<u8>) -> (s: String)
    ensures
        s@ == hex_spec(bytes@),
{
    let mut s = String::new();
    let mut i: usize = 0;
    while i < bytes.len()
        invariant
            i <= bytes.len(),
            s@ == hex_spec(bytes@.take(i as int)),
        decreases bytes.len() - i,
    {
        let b = bytes[i];
        assert(bytes@.take(i + 1).drop_last() == bytes@.take(i as int));
        s.push(hex_char(b / 16));
        s.push(hex_char(b % 16));
        i += 1;
    }
    assert(bytes@.take(bytes.len() as int) == bytes@);
    s
}

/// `n_bytes` of OS randomness as lowercase hex: session ids and per-file
/// tokens use 16 bytes, the per-run fingerprint 32. What the bytes are is
/// chance's; the token is always the hex of `n_bytes` of them.
pub fn random_token(n_bytes: usize) -> (r: Result<String, RandomUnavailable>)
    ensures
        r matches Ok(s) ==> exists|b: Seq<u8>| b.len() == n_bytes && s@ == hex_spec(b),
        r matches Ok(s) ==> s@.len() == 2 * n_bytes,
        r matches Ok(s) ==> forall|i: int| 0 <= i < s@.len() ==> is_lower_hex(#[trigger] s@[i]),
        n_bytes == 0 ==> (r matches Ok(s) && s@.len() == 0),
{
    let mut buf: Vec<u8> = Vec::new();
    let mut i: usize = 0;
    while i < n_bytes
        invariant
            i <= n_bytes,
            buf@.len() == i,
        decreases n_bytes - i,
    {
        buf.push(0);
        i += 1;
    }
    match fill_random(&mut buf) {
        Ok(()) => {
            proof {
                lemma_hex_shape(buf@);
            }
            Ok(hex_lower(&buf))
        },
        Err(_) => Err(RandomUnavailable),
    }
}

} // verus!
