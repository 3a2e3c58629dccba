//! An outbound send as a state machine: prepare-upload, then one upload per
//! accepted file, then done. The app performs each step (the HTTP calls, the
//! reads of the file) and reports back; the session decides what comes next
//! and keeps the phase, each file's state and the progress counters.

use vstd::prelude::*;
use crate::files::{decimal, decimal_spec, mime_for, mime_of, SendList};
use crate::fspath::{same_string, FsPath};
use crate::protocol::{is_lower_hex, random_token, FileMeta};

verus! {

/// Tries per file when the network, not the peer, breaks the upload off.
/// Handheld wifi drops a connection now and again; the receiver takes the
/// file again from the start.
pub const UPLOAD_ATTEMPTS: u32 = 2;

/// How far one file of a transfer has got.
pub enum FileState {
    Pending,
    /// In flight.
    Receiving,
    Done,
    Failed(String),
}

/// Where an outbound send stands.
pub enum OutboundPhase {
    /// prepare-upload sent; the peer's user is deciding.
    Waiting,
    Sending,
    Done,
    Declined,
    Cancelled,
    Failed(String),
}

/// Why the peer did not take a prepare-upload.
pub enum PrepareError {
    Declined,
    PinRequired,
    Busy,
    /// The receiver already has everything.
    Finished,
    Other(String),
}

/// Why a send could not be set up.
#[derive(Clone, Copy, PartialEq, Eq, Debug, Structural)]
pub enum SendError {
    /// The picked sources hold no file.
    NothingToSend,
    /// The system gave no randomness for the file ids.
    RandomUnavailable,
}

/// What the app is to do next for a send.
pub enum OutboundStep {
    /// Upload file `index` of the session with the receiver's `token`.
    Upload { index: usize, token: String },
    /// POST `/cancel` for the session, then report it with `on_cancel_sent`.
    CancelSession { session_id: String },
    /// Nothing more: the phase says how it ended.
    Stop,
}

/// One file of an outbound send.
pub struct OutboundFile {
    pub meta: FileMeta,
    pub path: FsPath,
    pub state: FileState,
    /// Bytes of this file sent in the current attempt.
    pub sent: u64,
}

/// An outbound send: what goes, to whom, and how far it has got.
pub struct OutboundSession {
    pub peer_alias: String,
    /// `http://ip:port` this send dials; the history keeps it for a resend.
    pub base: String,
    /// The paths the user picked, folders unexpanded: a resend walks them
    /// again rather than repeating the files they held.
    pub sources: Vec<FsPath>,
    pub files: Vec<OutboundFile>,
    pub total_bytes: u64,
    /// Bytes sent over all files, counted as the app's atomic counter does:
    /// modulo 2^64.
    pub sent_total: u64,
    /// Set by the user: the current upload stops at its next chunk.
    pub cancel: bool,
    pub phase: OutboundPhase,
    /// The session the receiver opened, once it accepted.
    pub session_id: Option<String>,
    /// The receiver's upload token per file id.
    pub tokens: Vec<(String, String)>,
    /// The file being uploaded, or the next one to look at.
    pub next: usize,
}

/// A file state as the contracts see it: a tag (pending, in flight, done,
/// failed) and the failure's message.
pub open spec fn state_model(s: FileState) -> (nat, Seq<char>) {
    match s {
        FileState::Pending => (0, Seq::empty()),
        FileState::Receiving => (1, Seq::empty()),
        FileState::Done => (2, Seq::empty()),
        FileState::Failed(m) => (3, m@),
    }
}

/// A phase as the contracts see it: a tag in declaration order and the
/// failure's message.
pub open spec fn phase_model(p: OutboundPhase) -> (nat, Seq<char>) {
    match p {
        OutboundPhase::Waiting => (0, Seq::empty()),
        OutboundPhase::Sending => (1, Seq::empty()),
        OutboundPhase::Done => (2, Seq::empty()),
        OutboundPhase::Declined => (3, Seq::empty()),
        OutboundPhase::Cancelled => (4, Seq::empty()),
        OutboundPhase::Failed(m) => (5, m@),
    }
}

/// The state of a file that failed with `msg`.
pub open spec fn failed(msg: Seq<char>) -> (nat, Seq<char>) {
    (3, msg)
}

/// The phase a refused prepare-upload leaves: declined stays declined, a
/// receiver that has everything already makes the send done, the rest fail
/// with a reason.
pub open spec fn refusal_phase(e: PrepareError) -> (nat, Seq<char>) {
    match e {
        PrepareError::Declined => (3, Seq::empty()),
        PrepareError::PinRequired => (5, "peer requires a PIN (not supported yet)"@),
        PrepareError::Busy => (5, "peer is busy"@),
        PrepareError::Finished => (2, Seq::empty()),
        PrepareError::Other(m) => (5, m@),
    }
}

/// A state after a cancel: whatever had not ended fails as cancelled.
pub open spec fn cancelled(s: (nat, Seq<char>)) -> (nat, Seq<char>) {
    if s.0 < 2 {
        failed("cancelled"@)
    } else {
        s
    }
}

/// The token the receiver gave for file id `id`: the first pair with that id.
pub open spec fn token_of(tokens: Seq<(String, String)>, id: Seq<char>) -> Option<Seq<char>>
    decreases tokens.len(),
{
    if tokens.len() == 0 {
        None
    } else if tokens[0].0@ == id {
        Some(tokens[0].1@)
    } else {
        token_of(tokens.drop_first(), id)
    }
}

/// The first file from `i` on that the receiver gave a token for, or the
/// number of files.
pub open spec fn next_tokened(files: Seq<OutboundFile>, tokens: Seq<(String, String)>, i: int) -> int
    decreases files.len() - i,
{
    if i >= files.len() {
        files.len() as int
    } else if token_of(tokens, files[i].meta.id@) is Some {
        i
    } else {
        next_tokened(files, tokens, i + 1)
    }
}

/// The bytes sent over all files, added up.
pub open spec fn sum_sent(files: Seq<OutboundFile>) -> int
    decreases files.len(),
{
    if files.len() == 0 {
        0
    } else {
        sum_sent(files.drop_last()) + files.last().sent
    }
}

/// How many files are done.
pub open spec fn count_done(files: Seq<OutboundFile>) -> nat
    decreases files.len(),
{
    if files.len() == 0 {
        0
    } else {
        count_done(files.drop_last()) + if files.last().state is Done {
            1nat
        } else {
            0nat
        }
    }
}

/// 2^64, the modulus of the byte counters.
pub open spec fn counter_modulus() -> int {
    0x1_0000_0000_0000_0000
}

/// Two lists of the same files, whose states may differ.
pub open spec fn same_files(a: Seq<OutboundFile>, b: Seq<OutboundFile>) -> bool {
    &&& b.len() == a.len()
    &&& forall|j: int|
        0 <= j < a.len() ==> {
            &&& (#[trigger] b[j]).meta == a[j].meta
            &&& b[j].path == a[j].path
            &&& b[j].sent == a[j].sent
        }
}

/// Two sessions with the same peer, sources, size and cancel flag.
pub open spec fn same_settings(o: OutboundSession, n: OutboundSession) -> bool {
    &&& n.peer_alias == o.peer_alias
    &&& n.base == o.base
    &&& n.sources == o.sources
    &&& n.total_bytes == o.total_bytes
    &&& n.cancel == o.cancel
}

/// What looking for the next upload does, from `files` with `next` in
/// flight. Files from `next` on that the receiver gave no token for fail as
/// skipped. At the first one it did, unless the user cancelled, that file
/// goes in flight and is uploaded. Past the last file, or on a cancel, the
/// walk ends: a cancel fails every file that had not ended and asks for the
/// session's cancel, otherwise the send is done.
pub open spec fn after_advance(
    files: Seq<OutboundFile>,
    next: int,
    tokens: Seq<(String, String)>,
    cancel: bool,
    session_id: Option<String>,
    phase: OutboundPhase,
    n: OutboundSession,
    step: OutboundStep,
) -> bool {
    let k = next_tokened(files, tokens, next);
    let len = files.len() as int;
    let skipped = |j: int|
        if next <= j < k {
            failed("skipped by receiver"@)
        } else {
            state_model(files[j].state)
        };
    &&& same_files(files, n.files@)
    &&& n.next == k
    &&& if k < len && !cancel {
        &&& step matches OutboundStep::Upload { index, token } && index == k && token_of(
            tokens,
            files[k].meta.id@,
        ) == Some(token@)
        &&& n.phase == phase
        &&& forall|j: int|
            0 <= j < len ==> state_model(#[trigger] n.files@[j].state) == (if j == k {
                (1nat, Seq::<char>::empty())
            } else {
                skipped(j)
            })
    } else if cancel {
        &&& step matches OutboundStep::CancelSession { session_id: id } && session_id matches Some(
            s,
        ) && id@ == s@
        &&& n.phase == phase
        &&& forall|j: int| 0 <= j < len ==> state_model(#[trigger] n.files@[j].state) == cancelled(skipped(j))
    } else {
        &&& step is Stop
        &&& n.phase is Done
        &&& forall|j: int| 0 <= j < len ==> state_model(#[trigger] n.files@[j].state) == skipped(j)
    }
}

/// The file in flight once its upload ended: done, or failed with the
/// message and its bytes taken back.
pub open spec fn upload_ended(f: OutboundFile, result: Result<(), String>) -> OutboundFile {
    match result {
        Ok(_) => OutboundFile { state: FileState::Done, ..f },
        Err(m) => OutboundFile { state: FileState::Failed(m), sent: 0, ..f },
    }
}

/// Every file in flight or done is one the receiver gave a token for.
pub open spec fn tokened(files: Seq<OutboundFile>, tokens: Seq<(String, String)>) -> bool {
    forall|j: int|
        0 <= j < files.len() && (files[j].state is Receiving || files[j].state is Done) ==> token_of(
            tokens,
            (#[trigger] files[j]).meta.id@,
        ) is Some
}

/// Looking for the next upload never puts in flight, nor leaves done, a file
/// the receiver gave no token for: over a whole send, a file ends up done
/// only if the receiver accepted it.
pub proof fn law_advance_keeps_files_tokened(
    files: Seq<OutboundFile>,
    next: int,
    tokens: Seq<(String, String)>,
    cancel: bool,
    session_id: Option<String>,
    phase: OutboundPhase,
    n: OutboundSession,
    step: OutboundStep,
)
    requires
        tokened(files, tokens),
        0 <= next,
        after_advance(files, next, tokens, cancel, session_id, phase, n, step),
    ensures
        tokened(n.files@, tokens),
{
    let k = next_tokened(files, tokens, next);
    lemma_next_tokened(files, tokens, next);
    assert forall|j: int|
        0 <= j < n.files@.len() && (n.files@[j].state is Receiving || n.files@[j].state is Done) implies token_of(
        tokens,
        (#[trigger] n.files@[j]).meta.id@,
    ) is Some by {
        assert(n.files@[j].meta == files[j].meta);
        if j != k || cancel || k >= files.len() {
            assert(state_model(n.files@[j].state).0 == 1 || state_model(n.files@[j].state).0 == 2);
            assert(state_model(files[j].state).0 == 1 || state_model(files[j].state).0 == 2);
        }
    }
}

/// The upload in flight ending keeps every file in flight or done tokened:
/// the file it marks done is the one in flight, which had its token.
pub proof fn law_upload_end_keeps_files_tokened(
    files: Seq<OutboundFile>,
    k: int,
    tokens: Seq<(String, String)>,
    result: Result<(), String>,
)
    requires
        tokened(files, tokens),
        0 <= k < files.len(),
        files[k].state is Receiving,
    ensures
        tokened(files.update(k, upload_ended(files[k], result)), tokens),
{
    let u = files.update(k, upload_ended(files[k], result));
    assert forall|j: int|
        0 <= j < u.len() && (u[j].state is Receiving || u[j].state is Done) implies token_of(
        tokens,
        (#[trigger] u[j]).meta.id@,
    ) is Some by {
        assert(files[j].meta == u[j].meta);
        if j != k {
            assert(u[j] == files[j]);
        }
    }
}

/// A cancel seen while looking for the next upload closes the send: the
/// session's cancel is asked for and no file is left pending or in flight.
pub proof fn law_cancel_leaves_no_file_open(
    files: Seq<OutboundFile>,
    next: int,
    tokens: Seq<(String, String)>,
    session_id: Option<String>,
    phase: OutboundPhase,
    n: OutboundSession,
    step: OutboundStep,
)
    requires
        after_advance(files, next, tokens, true, session_id, phase, n, step),
    ensures
        step matches OutboundStep::CancelSession { session_id: id } && session_id matches Some(s) && id@ == s@,
        forall|j: int| 0 <= j < n.files@.len() ==> !((#[trigger] n.files@[j]).state is Pending) && !(n.files@[j].state is Receiving),
{
    assert forall|j: int| 0 <= j < n.files@.len() implies !((#[trigger] n.files@[j]).state is Pending) && !(
    n.files@[j].state is Receiving) by {
        assert(state_model(n.files@[j].state).0 >= 2);
    }
}

/// Every file waiting or failed carries no bytes: only a file in flight or
/// done counts toward what was sent.
pub open spec fn failed_files_empty(files: Seq<OutboundFile>) -> bool {
    forall|j: int|
        0 <= j < files.len() && ((#[trigger] files[j]).state is Pending || files[j].state is Failed) ==> files[j].sent == 0
}

/// The files from `i` on are not under way: each waits or has failed.
pub open spec fn waiting_from(files: Seq<OutboundFile>, i: int) -> bool {
    forall|j: int| i <= j < files.len() ==> (#[trigger] files[j]).state is Pending || files[j].state is Failed
}

/// No file before `i` is in flight.
pub open spec fn none_in_flight_before(files: Seq<OutboundFile>, i: int) -> bool {
    forall|j: int| 0 <= j < i && j < files.len() ==> !((#[trigger] files[j]).state is Receiving)
}

/// Looking for the next upload, from a send where nothing from `next` on is
/// under way and nothing before it is in flight, leaves every waiting or
/// failed file without bytes, nothing in flight before the file it stops at
/// and nothing under way after it; a file it puts in flight starts from
/// nothing.
pub proof fn law_advance_keeps_failed_files_empty(
    files: Seq<OutboundFile>,
    next: int,
    tokens: Seq<(String, String)>,
    cancel: bool,
    session_id: Option<String>,
    phase: OutboundPhase,
    n: OutboundSession,
    step: OutboundStep,
)
    requires
        failed_files_empty(files),
        0 <= next,
        waiting_from(files, next),
        none_in_flight_before(files, next),
        after_advance(files, next, tokens, cancel, session_id, phase, n, step),
    ensures
        failed_files_empty(n.files@),
        none_in_flight_before(n.files@, n.next as int),
        waiting_from(n.files@, n.next + 1),
        step is Upload ==> n.next < n.files@.len() && n.files@[n.next as int].state is Receiving
            && n.files@[n.next as int].sent == 0,
{
    let k = next_tokened(files, tokens, next);
    lemma_next_tokened(files, tokens, next);
    let nf = n.files@;
    assert forall|j: int|
        0 <= j < nf.len() && ((#[trigger] nf[j]).state is Pending || nf[j].state is Failed) implies nf[j].sent == 0 by {
        assert(nf[j].sent == files[j].sent);
        if j >= next {
            assert(files[j].state is Pending || files[j].state is Failed);
        } else {
            assert(!(files[j].state is Receiving));
            if files[j].state is Done {
                assert(state_model(files[j].state).0 == 2);
                assert(state_model(nf[j].state).0 == 2);
            }
        }
    }
    assert forall|j: int| 0 <= j < k && j < nf.len() implies !((#[trigger] nf[j]).state is Receiving) by {
        if j < next {
            assert(!(files[j].state is Receiving));
            assert(state_model(files[j].state).0 != 1);
        }
        assert(state_model(nf[j].state).0 != 1);
    }
    assert forall|j: int| k + 1 <= j < nf.len() implies (#[trigger] nf[j]).state is Pending || nf[j].state is Failed by {
        assert(files[j].state is Pending || files[j].state is Failed);
        assert(state_model(files[j].state).0 == 0 || state_model(files[j].state).0 == 3);
        assert(state_model(nf[j].state).0 == 0 || state_model(nf[j].state).0 == 3);
    }
    if step is Upload {
        assert(k < files.len() && !cancel);
        assert(state_model(nf[k].state).0 == 1);
        assert(files[k].state is Pending || files[k].state is Failed);
    }
}

/// The upload in flight ending, in a send where nothing after it is under
/// way and nothing before it is in flight, leaves every waiting or failed
/// file without bytes — a failed upload's bytes are taken back — with
/// nothing after it under way and nothing up to it in flight: the state the
/// next look for an upload starts from.
pub proof fn law_upload_end_keeps_failed_files_empty(
    files: Seq<OutboundFile>,
    k: int,
    result: Result<(), String>,
)
    requires
        failed_files_empty(files),
        0 <= k < files.len(),
        files[k].state is Receiving,
        waiting_from(files, k + 1),
        none_in_flight_before(files, k),
    ensures
        ({
            let u = files.update(k, upload_ended(files[k], result));
            &&& failed_files_empty(u)
            &&& waiting_from(u, k + 1)
            &&& none_in_flight_before(u, k + 1)
        }),
{
    let u = files.update(k, upload_ended(files[k], result));
    assert forall|j: int|
        0 <= j < u.len() && ((#[trigger] u[j]).state is Pending || u[j].state is Failed) implies u[j].sent == 0 by {
        if j != k {
            assert(u[j] == files[j]);
        }
    }
    assert forall|j: int| k + 1 <= j < u.len() implies (#[trigger] u[j]).state is Pending || u[j].state is Failed by {
        assert(u[j] == files[j]);
    }
    assert forall|j: int| 0 <= j < k + 1 && j < u.len() implies !((#[trigger] u[j]).state is Receiving) by {
        if j != k {
            assert(u[j] == files[j]);
        }
    }
}

/// What every step of a send keeps, from `prepare` to its end: the overall
/// counter is the files' counters added up (modulo 2^64); a file in flight
/// or done is one the receiver gave a token for; a waiting or failed file
/// carries no bytes; nothing before the file in flight is in flight, and
/// nothing after it is under way; while the peer decides, no file is.
pub open spec fn run_kept(s: OutboundSession) -> bool {
    &&& s.wf()
    &&& tokened(s.files@, s.tokens@)
    &&& failed_files_empty(s.files@)
    &&& none_in_flight_before(s.files@, s.next as int)
    &&& waiting_from(s.files@, s.next + 1)
    &&& s.phase is Waiting ==> waiting_from(s.files@, 0)
}

/// A whole send keeps its promises: in every state its steps reach, the
/// overall counter is the sum of what each file sent (modulo 2^64), every
/// failed file carries no bytes, and every file done was accepted by the
/// receiver with a token.
pub proof fn law_a_send_keeps_its_promises(s: OutboundSession)
    requires
        run_kept(s),
    ensures
        s.sent_total as int == sum_sent(s.files@) % counter_modulus(),
        forall|j: int| 0 <= j < s.files@.len() && (#[trigger] s.files@[j]).state is Failed ==> s.files@[j].sent == 0,
        forall|j: int|
            0 <= j < s.files@.len() && (#[trigger] s.files@[j]).state is Done ==> token_of(s.tokens@, s.files@[j].meta.id@) is Some,
{
}

/// The first tokened file from `i` on is tokened, and those skipped before
/// it are not.
proof fn lemma_next_tokened(files: Seq<OutboundFile>, tokens: Seq<(String, String)>, i: int)
    requires
        0 <= i,
    ensures
        i <= next_tokened(files, tokens, i) <= files.len() || (i > files.len() && next_tokened(files, tokens, i) == files.len()),
        next_tokened(files, tokens, i) < files.len() ==> token_of(tokens, files[next_tokened(files, tokens, i)].meta.id@) is Some,
    decreases files.len() - i,
{
    if i < files.len() && token_of(tokens, files[i].meta.id@) is None {
        lemma_next_tokened(files, tokens, i + 1);
    }
}

proof fn lemma_sum_sent_same(a: Seq<OutboundFile>, b: Seq<OutboundFile>)
    requires
        a.len() == b.len(),
        forall|j: int| 0 <= j < a.len() ==> (#[trigger] a[j]).sent == b[j].sent,
    ensures
        sum_sent(a) == sum_sent(b),
    decreases a.len(),
{
    if a.len() > 0 {
        lemma_sum_sent_same(a.drop_last(), b.drop_last());
    }
}

proof fn lemma_sum_sent_update(a: Seq<OutboundFile>, k: int, f: OutboundFile)
    requires
        0 <= k < a.len(),
    ensures
        sum_sent(a.update(k, f)) == sum_sent(a) - a[k].sent + f.sent,
    decreases a.len(),
{
    if k < a.len() - 1 {
        lemma_sum_sent_update(a.drop_last(), k, f);
        assert(a.update(k, f).drop_last() == a.drop_last().update(k, f));
    } else {
        assert(a.update(k, f).drop_last() == a.drop_last());
    }
}

proof fn lemma_sum_sent_nonneg(a: Seq<OutboundFile>)
    ensures
        sum_sent(a) >= 0,
    decreases a.len(),
{
    if a.len() > 0 {
        lemma_sum_sent_nonneg(a.drop_last());
    }
}

proof fn lemma_mod_add(s: int, d: int)
    requires
        0 <= s,
        0 <= s + d,
    ensures
        ((s % counter_modulus()) + d) % counter_modulus() == (s + d) % counter_modulus(),
{
    vstd::arithmetic::div_mod::lemma_add_mod_noop(s, d, counter_modulus());
    vstd::arithmetic::div_mod::lemma_mod_twice(s, counter_modulus());
    vstd::arithmetic::div_mod::lemma_small_mod(d as nat % counter_modulus() as nat, counter_modulus() as nat);
    vstd::arithmetic::div_mod::lemma_add_mod_noop(s % counter_modulus(), d, counter_modulus());
}

proof fn lemma_count_done_same(a: Seq<OutboundFile>, b: Seq<OutboundFile>)
    requires
        a.len() == b.len(),
        forall|j: int| 0 <= j < a.len() ==> ((#[trigger] a[j]).state is Done) == (b[j].state is Done),
    ensures
        count_done(a) == count_done(b),
    decreases a.len(),
{
    if a.len() > 0 {
        lemma_count_done_same(a.drop_last(), b.drop_last());
    }
}

/// The receiver's token for file id `id`, if it gave one.
fn find_token(tokens: &Vec<(String, String)>, id: &String) -> (r: Option<String>)
    ensures
        match r {
            Some(t) => token_of(tokens@, id@) == Some(t@),
            None => token_of(tokens@, id@) is None,
        },
{
    let mut i: usize = 0;
    assert(tokens@.skip(0) == tokens@);
    while i < tokens.len()
        invariant
            i <= tokens.len(),
            token_of(tokens@, id@) == token_of(tokens@.skip(i as int), id@),
        decreases tokens.len() - i,
    {
        assert(tokens@.skip(i as int)[0] == tokens@[i as int]);
        if same_string(&tokens[i].0, id) {
            return Some(tokens[i].1.clone());
        }
        assert(tokens@.skip(i as int).drop_first() == tokens@.skip(i + 1));
        i += 1;
    }
    None
}

/// A file that changed size since it was picked is reported rather than sent
/// short: the receiver holds the sender to the size it announced.
pub fn check_unchanged(on_disk: u64, announced: u64) -> (r: Result<(), String>)
    ensures
        r is Ok <==> on_disk == announced,
        r matches Err(m) ==> m@ == "changed since it was picked: "@ + decimal_spec(on_disk as nat)
            + " bytes now, "@ + decimal_spec(announced as nat) + " announced"@,
{
    if on_disk == announced {
        return Ok(());
    }
    let mut m = String::from_str("changed since it was picked: ");
    let now = decimal(on_disk);
    let mut i: usize = 0;
    let ghost start = m@;
    while i < now.len()
        invariant
            i <= now.len(),
            m@ == start + now@.take(i as int),
        decreases now.len() - i,
    {
        m.push(now[i]);
        assert(now@.take(i + 1) == now@.take(i as int).push(now@[i as int]));
        i += 1;
    }
    assert(now@.take(now.len() as int) == now@);
    m.append(" bytes now, ");
    let was = decimal(announced);
    let mut i: usize = 0;
    let ghost start = m@;
    while i < was.len()
        invariant
            i <= was.len(),
            m@ == start + was@.take(i as int),
        decreases was.len() - i,
    {
        m.push(was[i]);
        assert(was@.take(i + 1) == was@.take(i as int).push(was@[i as int]));
        i += 1;
    }
    assert(was@.take(was.len() as int) == was@);
    m.append(" announced");
    Err(m)
}

impl OutboundSession {
    /// The session's invariant: the overall counter is the files' counters
    /// added up (modulo 2^64), and the file in flight is one of the files or
    /// just past them.
    pub open spec fn wf(&self) -> bool {
        &&& self.sent_total as int == sum_sent(self.files@) % counter_modulus()
        &&& self.next <= self.files@.len()
    }

    /// A send of the files `list` expanded to, each announced under a fresh
    /// 16-digit hex id with its relative name, size and MIME type, and
    /// waiting for the receiver. Fails when there is nothing to send, or when
    /// the system gives no randomness for the ids.
    pub fn prepare(peer_alias: String, base: String, sources: Vec<FsPath>, list: SendList) -> (r: Result<OutboundSession, SendError>)
        ensures
            r matches Ok(s) ==> run_kept(s),
            r matches Err(SendError::NothingToSend) <==> list.files@.len() == 0,
            r matches Ok(s) ==> {
                &&& s.wf()
                &&& s.peer_alias == peer_alias
                &&& s.base == base
                &&& s.sources == sources
                &&& s.total_bytes == list.bytes
                &&& s.sent_total == 0
                &&& !s.cancel
                &&& s.phase is Waiting
                &&& s.session_id is None
                &&& s.tokens@.len() == 0
                &&& s.next == 0
                &&& s.files@.len() == list.files@.len()
                &&& forall|i: int|
                    0 <= i < s.files@.len() ==> {
                        let f = #[trigger] s.files@[i];
                        let l = list.files@[i];
                        &&& f.path@ == l.path@
                        &&& f.meta.file_name@ == l.name@
                        &&& f.meta.size == l.size
                        &&& f.meta.file_type@ == mime_of(l.path@)
                        &&& f.meta.id@.len() == 16
                        &&& forall|c: int| 0 <= c < 16 ==> is_lower_hex(#[trigger] f.meta.id@[c])
                        &&& f.meta.sha256 is None
                        &&& f.meta.preview is None
                        &&& f.meta.metadata is None
                        &&& f.state is Pending
                        &&& f.sent == 0
                    }
            },
    {
        if list.files.len() == 0 {
            return Err(SendError::NothingToSend);
        }
        let mut files: Vec<OutboundFile> = Vec::new();
        let mut i: usize = 0;
        while i < list.files.len()
            invariant
                i <= list.files@.len(),
                files@.len() == i,
                forall|j: int|
                    0 <= j < i ==> {
                        let f = #[trigger] files@[j];
                        let l = list.files@[j];
                        &&& f.path@ == l.path@
                        &&& f.meta.file_name@ == l.name@
                        &&& f.meta.size == l.size
                        &&& f.meta.file_type@ == mime_of(l.path@)
                        &&& f.meta.id@.len() == 16
                        &&& forall|c: int| 0 <= c < 16 ==> is_lower_hex(#[trigger] f.meta.id@[c])
                        &&& f.meta.sha256 is None
                        &&& f.meta.preview is None
                        &&& f.meta.metadata is None
                        &&& f.state is Pending
                        &&& f.sent == 0
                    },
            decreases list.files@.len() - i,
        {
            let id = match random_token(8) {
                Ok(t) => t,
                Err(_) => return Err(SendError::RandomUnavailable),
            };
            let l = &list.files[i];
            let f = OutboundFile {
                meta: FileMeta {
                    id,
                    file_name: l.name.clone(),
                    size: l.size,
                    file_type: String::from_str(mime_for(&l.path)),
                    sha256: None,
                    preview: None,
                    metadata: None,
                },
                path: l.path.duplicate(),
                state: FileState::Pending,
                sent: 0,
            };
            files.push(f);
            i += 1;
        }
        let s = OutboundSession {
            peer_alias,
            base,
            sources,
            files,
            total_bytes: list.bytes,
            sent_total: 0,
            cancel: false,
            phase: OutboundPhase::Waiting,
            session_id: None,
            tokens: Vec::new(),
            next: 0,
        };
        proof {
            lemma_sum_sent_zero(s.files@);
        }
        Ok(s)
    }

    /// Where the send stands.
    pub fn phase(&self) -> (r: OutboundPhase)
        ensures
            phase_model(r) == phase_model(self.phase),
    {
        match &self.phase {
            OutboundPhase::Waiting => OutboundPhase::Waiting,
            OutboundPhase::Sending => OutboundPhase::Sending,
            OutboundPhase::Done => OutboundPhase::Done,
            OutboundPhase::Declined => OutboundPhase::Declined,
            OutboundPhase::Cancelled => OutboundPhase::Cancelled,
            OutboundPhase::Failed(m) => OutboundPhase::Failed(m.clone()),
        }
    }

    /// Whether the send has ended: anything but waiting and sending.
    pub fn is_finished(&self) -> (r: bool)
        ensures
            r == !(self.phase is Waiting || self.phase is Sending),
    {
        match self.phase {
            OutboundPhase::Waiting | OutboundPhase::Sending => false,
            _ => true,
        }
    }

    /// How many files are done.
    pub fn done_count(&self) -> (r: usize)
        ensures
            r == count_done(self.files@),
    {
        let mut n: usize = 0;
        let mut i: usize = 0;
        while i < self.files.len()
            invariant
                i <= self.files@.len(),
                n == count_done(self.files@.take(i as int)),
                n <= i,
            decreases self.files@.len() - i,
        {
            assert(self.files@.take(i + 1).drop_last() == self.files@.take(i as int));
            if let FileState::Done = self.files[i].state {
                n += 1;
            }
            i += 1;
        }
        assert(self.files@.take(self.files@.len() as int) == self.files@);
        n
    }

    /// The receiver's answer to prepare-upload: its session id and a token
    /// per accepted file id, or why it refused. A refusal ends the send with
    /// the phase `refusal_phase` gives. An accepted send the user has
    /// cancelled meanwhile asks for the session's cancel; otherwise sending
    /// starts at the first file.
    pub fn on_prepared(&mut self, reply: Result<(String, Vec<(String, String)>), PrepareError>) -> (step: OutboundStep)
        requires
            old(self).wf(),
        ensures
            run_kept(*old(self)) && old(self).phase is Waiting ==> run_kept(*final(self)),
            final(self).wf(),
            same_settings(*old(self), *final(self)),
            final(self).sent_total == old(self).sent_total,
            match reply {
                Err(e) => {
                    &&& step is Stop
                    &&& phase_model(final(self).phase) == refusal_phase(e)
                    &&& final(self).files@ == old(self).files@
                    &&& final(self).session_id == old(self).session_id
                    &&& final(self).tokens == old(self).tokens
                    &&& final(self).next == old(self).next
                },
                Ok((id, tokens)) => {
                    &&& final(self).session_id == Some(id)
                    &&& final(self).tokens == tokens
                    &&& if old(self).cancel {
                        &&& step matches OutboundStep::CancelSession { session_id } && session_id@ == id@
                        &&& final(self).files@ == old(self).files@
                        &&& final(self).phase == old(self).phase
                        &&& final(self).next == 0
                    } else {
                        after_advance(old(self).files@, 0, tokens@, false, Some(id), OutboundPhase::Sending, *final(self), step)
                    }
                },
            },
    {
        match reply {
            Err(e) => {
                self.phase = match e {
                    PrepareError::Declined => OutboundPhase::Declined,
                    PrepareError::PinRequired => OutboundPhase::Failed(
                        String::from_str("peer requires a PIN (not supported yet)"),
                    ),
                    PrepareError::Busy => OutboundPhase::Failed(String::from_str("peer is busy")),
                    PrepareError::Finished => OutboundPhase::Done,
                    PrepareError::Other(m) => OutboundPhase::Failed(m),
                };
                OutboundStep::Stop
            },
            Ok((id, tokens)) => {
                let step_id = id.clone();
                self.session_id = Some(id);
                self.tokens = tokens;
                self.next = 0;
                if self.cancel {
                    return OutboundStep::CancelSession { session_id: step_id };
                }
                self.phase = OutboundPhase::Sending;
                let ghost before = *self;
                let step = self.advance();
                proof {
                    if run_kept(*old(self)) && old(self).phase is Waiting {
                        assert(tokened(before.files@, before.tokens@));
                        law_advance_keeps_files_tokened(before.files@, 0, before.tokens@, before.cancel, before.session_id, before.phase, *self, step);
                        law_advance_keeps_failed_files_empty(before.files@, 0, before.tokens@, before.cancel, before.session_id, before.phase, *self, step);
                    }
                }
                step
            },
        }
    }

    /// The upload of the file in flight ended: done, or failed with a message,
    /// its bytes taken back out of the overall count. Then on to the next
    /// file.
    pub fn on_uploaded(&mut self, result: Result<(), String>) -> (step: OutboundStep)
        requires
            old(self).wf(),
            old(self).session_id is Some,
            old(self).next < old(self).files@.len(),
        ensures
            run_kept(*old(self)) && old(self).files@[old(self).next as int].state is Receiving ==> run_kept(*final(self)),
            final(self).wf(),
            same_settings(*old(self), *final(self)),
            final(self).session_id == old(self).session_id,
            final(self).tokens == old(self).tokens,
            ({
                let k = old(self).next as int;
                let f = old(self).files@[k];
                let ended = upload_ended(f, result);
                &&& final(self).sent_total == match result {
                    Ok(_) => old(self).sent_total,
                    Err(_) => old(self).sent_total.wrapping_sub(f.sent),
                }
                &&& after_advance(
                    old(self).files@.update(k, ended),
                    k + 1,
                    old(self).tokens@,
                    old(self).cancel,
                    old(self).session_id,
                    old(self).phase,
                    *final(self),
                    step,
                )
            }),
    {
        let k = self.next;
        match result {
            Ok(()) => {
                let ghost before = self.files@;
                self.set_state(k, FileState::Done);
                proof {
                    lemma_sum_sent_update(before, k as int, self.files@[k as int]);
                    assert(self.files@ == old(self).files@.update(
                        k as int,
                        OutboundFile { state: FileState::Done, ..old(self).files@[k as int] },
                    ));
                }
            },
            Err(m) => {
                let ghost gm = m;
                self.roll_back(k);
                let ghost before = self.files@;
                self.set_state(k, FileState::Failed(m));
                proof {
                    lemma_sum_sent_update(before, k as int, self.files@[k as int]);
                    assert(self.files@ == old(self).files@.update(
                        k as int,
                        OutboundFile { state: FileState::Failed(gm), sent: 0, ..old(self).files@[k as int] },
                    ));
                }
            },
        }
        assert(k < self.files.len());
        self.next = k + 1;
        let ghost before = *self;
        proof {
            if run_kept(*old(self)) && old(self).files@[k as int].state is Receiving {
                law_upload_end_keeps_failed_files_empty(old(self).files@, k as int, result);
                law_upload_end_keeps_files_tokened(old(self).files@, k as int, old(self).tokens@, result);
            }
        }
        let step = self.advance();
        proof {
            if run_kept(*old(self)) && old(self).files@[k as int].state is Receiving {
                law_advance_keeps_files_tokened(before.files@, before.next as int, before.tokens@, before.cancel, before.session_id, before.phase, *self, step);
                law_advance_keeps_failed_files_empty(before.files@, before.next as int, before.tokens@, before.cancel, before.session_id, before.phase, *self, step);
            }
        }
        step
    }

    /// Counts `n` more bytes read from file `index` into its counter and the
    /// overall one, wrapping as the app's atomic counters do.
    pub fn add_sent(&mut self, index: usize, n: u64)
        requires
            old(self).wf(),
            index < old(self).files@.len(),
        ensures
            run_kept(*old(self)) && old(self).files@[index as int].state is Receiving ==> run_kept(*final(self)),
            final(self).wf(),
            final(self).files@ == old(self).files@.update(
                index as int,
                OutboundFile { sent: old(self).files@[index as int].sent.wrapping_add(n), ..old(self).files@[index as int] },
            ),
            final(self).sent_total == old(self).sent_total.wrapping_add(n),
            same_settings(*old(self), *final(self)),
            final(self).phase == old(self).phase,
            final(self).session_id == old(self).session_id,
            final(self).tokens == old(self).tokens,
            final(self).next == old(self).next,
    {
        let ghost o = self.files@;
        let s = self.files[index].sent.wrapping_add(n);
        self.files[index].sent = s;
        self.sent_total = self.sent_total.wrapping_add(n);
        proof {
            assert(self.files@ == o.update(index as int, OutboundFile { sent: s, ..o[index as int] }));
            lemma_sum_sent_update(o, index as int, self.files@[index as int]);
            lemma_sum_sent_nonneg(o);
            lemma_sum_sent_nonneg(self.files@);
            let m = counter_modulus();
            let total = sum_sent(o);
            let d = s - o[index as int].sent;
            assert(s == (o[index as int].sent + n) % m);
            assert(old(self).sent_total == total % m);
            assert(self.sent_total == (old(self).sent_total + n) % m);
            lemma_mod_add(total, n as int);
            assert(self.sent_total == (total + n) % m);
            if o[index as int].sent + n >= m {
                assert(s == o[index as int].sent + n - m);
                vstd::arithmetic::div_mod::lemma_mod_sub_multiples_vanish(total + n, m);
                assert(sum_sent(self.files@) == total + n - m);
            }
        }
    }

    /// Whether an upload of the file in flight that broke off on attempt
    /// `attempt` is tried again: not when the peer answered (it has made up
    /// its mind), not past `UPLOAD_ATTEMPTS`, not once the user cancelled. A
    /// retry starts the file over, so its bytes leave the overall count.
    pub fn should_retry(&mut self, attempt: u32, peer_answered: bool) -> (r: bool)
        requires
            old(self).wf(),
            old(self).next < old(self).files@.len(),
        ensures
            run_kept(*old(self)) ==> run_kept(*final(self)),
            final(self).wf(),
            r == (!peer_answered && attempt < UPLOAD_ATTEMPTS && !old(self).cancel),
            r ==> final(self).files@ == old(self).files@.update(
                old(self).next as int,
                OutboundFile { sent: 0, ..old(self).files@[old(self).next as int] },
            ),
            r ==> final(self).sent_total == old(self).sent_total.wrapping_sub(old(self).files@[old(self).next as int].sent),
            !r ==> final(self).files@ == old(self).files@ && final(self).sent_total == old(self).sent_total,
            same_settings(*old(self), *final(self)),
            final(self).phase == old(self).phase,
            final(self).session_id == old(self).session_id,
            final(self).tokens == old(self).tokens,
            final(self).next == old(self).next,
    {
        if peer_answered || attempt >= UPLOAD_ATTEMPTS || self.cancel {
            return false;
        }
        let k = self.next;
        self.roll_back(k);
        true
    }

    /// The session's cancel was sent: the send ends as cancelled.
    pub fn on_cancel_sent(&mut self)
        ensures
            run_kept(*old(self)) ==> run_kept(*final(self)),
            final(self).phase is Cancelled,
            final(self).files@ == old(self).files@,
            final(self).sent_total == old(self).sent_total,
            final(self).next == old(self).next,
            final(self).session_id == old(self).session_id,
            final(self).tokens == old(self).tokens,
            same_settings(*old(self), *final(self)),
    {
        self.phase = OutboundPhase::Cancelled;
    }

    /// Takes file `k`'s bytes back out of the overall count.
    fn roll_back(&mut self, k: usize)
        requires
            old(self).wf(),
            k < old(self).files@.len(),
        ensures
            final(self).wf(),
            final(self).files@ == old(self).files@.update(k as int, OutboundFile { sent: 0, ..old(self).files@[k as int] }),
            final(self).sent_total == old(self).sent_total.wrapping_sub(old(self).files@[k as int].sent),
            same_settings(*old(self), *final(self)),
            final(self).phase == old(self).phase,
            final(self).session_id == old(self).session_id,
            final(self).tokens == old(self).tokens,
            final(self).next == old(self).next,
    {
        let ghost o = self.files@;
        let sent = self.files[k].sent;
        self.files[k].sent = 0;
        self.sent_total = self.sent_total.wrapping_sub(sent);
        proof {
            assert(self.files@ == o.update(k as int, OutboundFile { sent: 0, ..o[k as int] }));
            lemma_sum_sent_update(o, k as int, self.files@[k as int]);
            lemma_sum_sent_nonneg(self.files@);
            lemma_sum_sent_le(o, k as int);
            let m = counter_modulus();
            let total = sum_sent(o);
            lemma_mod_add(total - sent, sent as int);
            lemma_mod_add(total - sent, 0);
            vstd::arithmetic::div_mod::lemma_add_mod_noop(total - sent, sent as int, m);
            vstd::arithmetic::div_mod::lemma_sub_mod_noop(total, sent as int, m);
        }
    }

    fn set_state(&mut self, k: usize, state: FileState)
        requires
            k < old(self).files@.len(),
        ensures
            final(self).files@ == old(self).files@.update(
                k as int,
                OutboundFile { state, ..old(self).files@[k as int] },
            ),
            same_settings(*old(self), *final(self)),
            final(self).sent_total == old(self).sent_total,
            final(self).phase == old(self).phase,
            final(self).session_id == old(self).session_id,
            final(self).tokens == old(self).tokens,
            final(self).next == old(self).next,
    {
        self.files[k].state = state;
    }

    /// Looks for the next file to upload from the one in flight on.
    fn advance(&mut self) -> (step: OutboundStep)
        requires
            old(self).wf(),
            old(self).session_id is Some,
        ensures
            final(self).wf(),
            same_settings(*old(self), *final(self)),
            final(self).sent_total == old(self).sent_total,
            final(self).session_id == old(self).session_id,
            final(self).tokens == old(self).tokens,
            after_advance(
                old(self).files@,
                old(self).next as int,
                old(self).tokens@,
                old(self).cancel,
                old(self).session_id,
                old(self).phase,
                *final(self),
                step,
            ),
    {
        let ghost o = *self;
        let mut i: usize = self.next;
        let mut found: Option<String> = None;
        while i < self.files.len()
            invariant_except_break
                found is None,
                next_tokened(o.files@, o.tokens@, o.next as int) == next_tokened(o.files@, o.tokens@, i as int),
            invariant
                o.next <= i <= self.files@.len(),
                same_settings(o, *self),
                same_files(o.files@, self.files@),
                self.sent_total == o.sent_total,
                self.session_id == o.session_id,
                self.tokens == o.tokens,
                self.next == o.next,
                self.phase == o.phase,
                forall|j: int|
                    0 <= j < self.files@.len() ==> state_model(#[trigger] self.files@[j].state) == (if o.next <= j < i {
                        failed("skipped by receiver"@)
                    } else {
                        state_model(o.files@[j].state)
                    }),
            ensures
                found matches Some(t) ==> i < self.files@.len() && i == next_tokened(o.files@, o.tokens@, o.next as int)
                    && token_of(o.tokens@, o.files@[i as int].meta.id@) == Some(t@),
                found is None ==> i == self.files@.len() && i == next_tokened(o.files@, o.tokens@, o.next as int),
            decreases self.files@.len() - i,
        {
            match find_token(&self.tokens, &self.files[i].meta.id) {
                Some(t) => {
                    found = Some(t);
                    break;
                },
                None => {
                    self.set_state(i, FileState::Failed(String::from_str("skipped by receiver")));
                    i += 1;
                },
            }
        }
        proof {
            lemma_sum_sent_same(o.files@, self.files@);
        }
        self.next = i;
        match found {
            Some(token) => {
                if self.cancel {
                    return self.close_cancelled();
                }
                self.set_state(i, FileState::Receiving);
                proof {
                    lemma_sum_sent_same(o.files@, self.files@);
                }
                OutboundStep::Upload { index: i, token }
            },
            None => {
                if self.cancel {
                    return self.close_cancelled();
                }
                self.phase = OutboundPhase::Done;
                OutboundStep::Stop
            },
        }
    }

    /// Fails as cancelled every file that had not ended, and asks for the
    /// session's cancel.
    fn close_cancelled(&mut self) -> (step: OutboundStep)
        requires
            old(self).session_id is Some,
            old(self).wf(),
        ensures
            final(self).wf(),
            same_settings(*old(self), *final(self)),
            same_files(old(self).files@, final(self).files@),
            final(self).sent_total == old(self).sent_total,
            final(self).session_id == old(self).session_id,
            final(self).tokens == old(self).tokens,
            final(self).next == old(self).next,
            final(self).phase == old(self).phase,
            step matches OutboundStep::CancelSession { session_id } && old(self).session_id matches Some(s)
                && session_id@ == s@,
            forall|j: int|
                0 <= j < old(self).files@.len() ==> state_model(#[trigger] final(self).files@[j].state)
                    == cancelled(state_model(old(self).files@[j].state)),
    {
        let ghost start = *self;
        let mut j: usize = 0;
        while j < self.files.len()
            invariant
                j <= self.files@.len(),
                same_settings(start, *self),
                same_files(start.files@, self.files@),
                self.sent_total == start.sent_total,
                self.session_id == start.session_id,
                self.tokens == start.tokens,
                self.next == start.next,
                self.phase == start.phase,
                forall|a: int|
                    0 <= a < self.files@.len() ==> state_model(#[trigger] self.files@[a].state) == (if a < j {
                        cancelled(state_model(start.files@[a].state))
                    } else {
                        state_model(start.files@[a].state)
                    }),
            decreases self.files@.len() - j,
        {
            let open = match self.files[j].state {
                FileState::Pending | FileState::Receiving => true,
                _ => false,
            };
            if open {
                self.set_state(j, FileState::Failed(String::from_str("cancelled")));
            }
            j += 1;
        }
        proof {
            lemma_sum_sent_same(start.files@, self.files@);
        }
        let id = match &self.session_id {
            Some(s) => s.clone(),
            None => String::new(),
        };
        OutboundStep::CancelSession { session_id: id }
    }
}

proof fn lemma_sum_sent_le(a: Seq<OutboundFile>, k: int)
    requires
        0 <= k < a.len(),
    ensures
        a[k].sent <= sum_sent(a),
    decreases a.len(),
{
    lemma_sum_sent_nonneg(a.drop_last());
    if k < a.len() - 1 {
        lemma_sum_sent_le(a.drop_last(), k);
    }
}

proof fn lemma_sum_sent_zero(a: Seq<OutboundFile>)
    requires
        forall|j: int| 0 <= j < a.len() ==> (#[trigger] a[j]).sent == 0,
    ensures
        sum_sent(a) == 0,
    decreases a.len(),
{
    if a.len() > 0 {
        lemma_sum_sent_zero(a.drop_last());
    }
}

} // verus!
