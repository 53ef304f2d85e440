//! The connection protocol.
//!
//! A request is any sequence of non-null bytes terminated by a single null
//! byte. The response to a request is one or two bytes: `X` when the request
//! names no registered key (or is not valid text), `F` when the command could
//! not be spawned, `C` plus the exit code modulo 256 when the process exited,
//! and `S` plus the signal number modulo 256 when a signal terminated it.
//!
//! The functions here are the decisions of a connection handler: what a read
//! event leads to, and what follows a finished command. The transport that
//! produces the events and performs the writes stays outside the library.

use crate::command::CommandSpec;
use crate::key::null_free;
use crate::registry::Registry;
use vstd::prelude::*;
use vstd::utf8::{decode_utf8, valid_utf8};

verus! {

/// The reject marker `X`.
pub const REJECT_BYTE: u8 = 0x58;

/// The spawn-failure marker `F`.
pub const SPAWN_FAIL_BYTE: u8 = 0x46;

/// The normal-exit marker `C`.
pub const EXIT_BYTE: u8 = 0x43;

/// The killed-by-signal marker `S`.
pub const SIGNAL_BYTE: u8 = 0x53;

/// The outcome of running a dispatched command.
#[derive(Debug, Clone, Copy, PartialEq, Eq, Structural)]
pub enum RunOutcome {
    /// The process exited normally with the given code.
    Exited(i32),
    /// The process was terminated by the given signal number.
    Signaled(i32),
    /// The process could not be spawned.
    SpawnFailed,
}

/// The response bytes owed for a command's outcome.
pub open spec fn response_for(outcome: RunOutcome) -> Seq<u8> {
    match outcome {
        RunOutcome::Exited(code) => seq![EXIT_BYTE, ((code as int) % 256) as u8],
        RunOutcome::Signaled(sig) => seq![SIGNAL_BYTE, ((sig as int) % 256) as u8],
        RunOutcome::SpawnFailed => seq![SPAWN_FAIL_BYTE],
    }
}

/// The response bytes owed for a request that names no registered key.
pub open spec fn reject_response() -> Seq<u8> {
    seq![REJECT_BYTE]
}

/// The given value modulo 256, as a byte.
pub fn byte_mod(code: i32) -> (b: u8)
    ensures
        b as int == (code as int) % 256,
{
    if code >= 0 {
        (code % 256) as u8
    } else {
        let n = -(code + 1);
        let m = n % 256;
        proof {
            assert((code as int) % 256 == 255 - (n as int) % 256) by (nonlinear_arith)
                requires
                    code as int == -(n as int) - 1,
                    n >= 0,
            ;
        }
        (255 - m) as u8
    }
}

/// Encodes a command outcome as its response bytes.
pub fn encode_outcome(outcome: &RunOutcome) -> (r: Vec<u8>)
    ensures
        r@ == response_for(*outcome),
{
    let mut r: Vec<u8> = Vec::new();
    match outcome {
        RunOutcome::Exited(code) => {
            r.push(EXIT_BYTE);
            r.push(byte_mod(*code));
        },
        RunOutcome::Signaled(sig) => {
            r.push(SIGNAL_BYTE);
            r.push(byte_mod(*sig));
        },
        RunOutcome::SpawnFailed => {
            r.push(SPAWN_FAIL_BYTE);
        },
    }
    proof {
        assert(r@ =~= response_for(*outcome));
    }
    r
}

/// The reject response, `X` alone.
pub fn reject_bytes() -> (r: Vec<u8>)
    ensures
        r@ == reject_response(),
{
    let mut r: Vec<u8> = Vec::new();
    r.push(REJECT_BYTE);
    proof {
        assert(r@ =~= reject_response());
    }
    r
}

/// The index of the first delimiter (null byte) in the sequence.
pub open spec fn delim_index(s: Seq<u8>) -> int
    decreases s.len(),
{
    if s.len() == 0 {
        0
    } else if s[0] == 0u8 {
        0
    } else {
        1 + delim_index(s.drop_first())
    }
}

/// When a delimiter is present, the first one lies inside the sequence and
/// only non-null bytes precede it.
pub proof fn lemma_delim_index(s: Seq<u8>)
    requires
        s.contains(0u8),
    ensures
        0 <= delim_index(s) < s.len(),
        s[delim_index(s)] == 0u8,
        forall|j: int| 0 <= j < delim_index(s) ==> s[j] != 0u8,
    decreases s.len(),
{
    if s.len() > 0 && s[0] != 0u8 {
        let rest = s.drop_first();
        assert(rest.contains(0u8)) by {
            let i = choose|i: int| 0 <= i < s.len() && s[i] == 0u8;
            assert(rest[i - 1] == 0u8);
        }
        lemma_delim_index(rest);
        assert forall|j: int| 0 <= j < delim_index(s) implies s[j] != 0u8 by {
            if j > 0 {
                assert(rest[j - 1] != 0u8);
            }
        }
    }
}

/// The first delimiter is the only position with a null byte before it.
pub proof fn lemma_delim_index_unique(s: Seq<u8>, d: int)
    requires
        0 <= d < s.len(),
        s[d] == 0u8,
        forall|j: int| 0 <= j < d ==> s[j] != 0u8,
    ensures
        s.contains(0u8),
        delim_index(s) == d,
{
    assert(s.contains(0u8)) by {
        assert(s[d] == 0u8);
    }
    lemma_delim_index(s);
    let e = delim_index(s);
    if e < d {
        assert(s[e] != 0u8);
    } else if e > d {
        assert(s[d] != 0u8);
    }
}

/// Accumulated stream bytes, not yet cut into frames.
///
/// A read may return any number of bytes — none, part of a frame, several
/// frames. The buffer takes whatever arrived and hands out one complete
/// frame at a time.
pub struct FrameBuffer {
    buf: Vec<u8>,
}

impl View for FrameBuffer {
    type V = Seq<u8>;

    closed spec fn view(&self) -> Seq<u8> {
        self.buf@
    }
}

impl FrameBuffer {
    /// An empty buffer.
    pub fn new() -> (r: FrameBuffer)
        ensures
            r@ == Seq::<u8>::empty(),
    {
        FrameBuffer { buf: Vec::new() }
    }

    /// Appends freshly read bytes.
    pub fn feed(&mut self, chunk: &[u8])
        ensures
            final(self)@ == old(self)@ + chunk@,
    {
        let mut i: usize = 0;
        while i < chunk.len()
            invariant
                0 <= i <= chunk@.len(),
                self.buf@ =~= old(self)@ + chunk@.take(i as int),
            decreases chunk@.len() - i,
        {
            self.buf.push(chunk[i]);
            i = i + 1;
        }
        proof {
            assert(self.buf@ =~= old(self)@ + chunk@);
        }
    }

    /// Drops whatever was accumulated: a failed read aborts the current
    /// request.
    pub fn clear(&mut self)
        ensures
            final(self)@ == Seq::<u8>::empty(),
    {
        self.buf.clear();
    }

    /// Cuts the first complete frame off the buffer: the bytes before the
    /// first delimiter, which never include a delimiter themselves. Without
    /// a delimiter the buffer is left as it is.
    pub fn take_frame(&mut self) -> (r: Option<Vec<u8>>)
        ensures
            r is Some <==> old(self)@.contains(0u8),
            match r {
                None => final(self)@ == old(self)@,
                Some(f) => {
                    let d = delim_index(old(self)@);
                    &&& f@ == old(self)@.take(d)
                    &&& final(self)@ == old(self)@.skip(d + 1)
                    &&& null_free(f@)
                },
            },
    {
        let n = self.buf.len();
        let mut d: usize = 0;
        while d < n
            invariant_except_break
                0 <= d <= n,
            invariant
                n == self.buf@.len(),
                self.buf@ == old(self)@,
                forall|j: int| 0 <= j < d ==> self.buf@[j] != 0u8,
            ensures
                0 <= d <= n,
                d < n ==> self.buf@[d as int] == 0u8,
            decreases n - d,
        {
            if self.buf[d] == 0u8 {
                break ;
            }
            d = d + 1;
        }
        if d == n {
            proof {
                if self.buf@.contains(0u8) {
                    let i = choose|i: int| 0 <= i < self.buf@.len() && self.buf@[i] == 0u8;
                    assert(self.buf@[i] != 0u8);
                }
            }
            return None;
        }
        proof {
            lemma_delim_index_unique(self.buf@, d as int);
        }
        let mut frame: Vec<u8> = Vec::new();
        let mut k: usize = 0;
        while k < d
            invariant
                0 <= k <= d < n,
                n == self.buf@.len(),
                self.buf@ == old(self)@,
                frame@ =~= self.buf@.take(k as int),
            decreases d - k,
        {
            frame.push(self.buf[k]);
            k = k + 1;
        }
        let mut rest: Vec<u8> = Vec::new();
        let mut m: usize = d + 1;
        while m < n
            invariant
                d + 1 <= m <= n,
                n == self.buf@.len(),
                self.buf@ == old(self)@,
                rest@ =~= self.buf@.subrange(d + 1, m as int),
            decreases n - m,
        {
            rest.push(self.buf[m]);
            m = m + 1;
        }
        proof {
            assert(frame@ =~= old(self)@.take(delim_index(old(self)@)));
            assert(rest@ =~= old(self)@.skip(delim_index(old(self)@) + 1));
        }
        self.buf = rest;
        Some(frame)
    }
}

/// Law: two keys framed back to back come out as two frames, in order, and
/// nothing is left over.
pub proof fn lemma_back_to_back_frames(a: Seq<u8>, b: Seq<u8>)
    requires
        null_free(a),
        null_free(b),
    ensures
        ({
            let s = a + seq![0u8] + b + seq![0u8];
            let rest = s.skip(delim_index(s) + 1);
            &&& s.contains(0u8)
            &&& delim_index(s) == a.len()
            &&& s.take(delim_index(s)) == a
            &&& rest.contains(0u8)
            &&& delim_index(rest) == b.len()
            &&& rest.take(delim_index(rest)) == b
            &&& rest.skip(delim_index(rest) + 1) == Seq::<u8>::empty()
        }),
{
    let s = a + seq![0u8] + b + seq![0u8];
    assert(s[a.len() as int] == 0u8);
    assert forall|j: int| 0 <= j < a.len() implies s[j] != 0u8 by {
        assert(s[j] == a[j]);
    }
    lemma_delim_index_unique(s, a.len() as int);
    assert(s.take(a.len() as int) =~= a);
    let rest = s.skip(a.len() as int + 1);
    assert(rest =~= b + seq![0u8]);
    assert(rest[b.len() as int] == 0u8);
    assert forall|j: int| 0 <= j < b.len() implies rest[j] != 0u8 by {
        assert(rest[j] == b[j]);
    }
    lemma_delim_index_unique(rest, b.len() as int);
    assert(rest.take(b.len() as int) =~= b);
    assert(rest.skip(b.len() as int + 1) =~= Seq::<u8>::empty());
}

/// How a failed read relates to the stream's health.
#[derive(Debug, Clone, Copy, PartialEq, Eq, Structural)]
pub enum ReadFailure {
    /// An interrupted-syscall-class error: the read may simply be repeated.
    Transient,
    /// Another recoverable error: the current request is lost, the stream
    /// is still usable.
    Recoverable,
    /// The stream is no longer usable.
    Fatal,
}

/// What the transport yielded while a key was awaited.
pub enum ReadEvent {
    /// A complete frame arrived: the bytes before its delimiter.
    Frame(Vec<u8>),
    /// The peer closed the stream.
    Eof,
    /// A read failed.
    Failed(ReadFailure),
}

/// What the handler does next, after a read event.
pub enum ReadStep {
    /// Write the reject response `X`, keep the connection open, and await
    /// the next key.
    Reject,
    /// Run this command, then report its outcome on the same connection.
    Dispatch(CommandSpec),
    /// Repeat the read, keeping whatever was accumulated.
    Retry,
    /// Discard any partial request and await the next key.
    AwaitNext,
    /// Close the connection.
    Close,
}

/// Decides what a read event leads to: a complete frame either names a
/// registered key — its command is dispatched — or draws the reject
/// response; end of stream and an unusable stream close the connection; a
/// transient failure is retried as it stands, any other failure only costs
/// the partial request.
pub fn on_read_event(registry: &Registry, ev: &ReadEvent) -> (r: ReadStep)
    ensures
        match ev {
            ReadEvent::Frame(f) => {
                if valid_utf8(f@) && registry@.contains_key(decode_utf8(f@)) {
                    r matches ReadStep::Dispatch(c) && c@ == registry@[decode_utf8(f@)]
                } else {
                    r is Reject
                }
            },
            ReadEvent::Eof => r is Close,
            ReadEvent::Failed(failure) => match failure {
                ReadFailure::Transient => r is Retry,
                ReadFailure::Recoverable => r is AwaitNext,
                ReadFailure::Fatal => r is Close,
            },
        },
{
    match ev {
        ReadEvent::Frame(f) => {
            match registry.lookup_frame(f.as_slice()) {
                Some(cmd) => ReadStep::Dispatch(cmd.clone()),
                None => ReadStep::Reject,
            }
        },
        ReadEvent::Eof => ReadStep::Close,
        ReadEvent::Failed(failure) => match failure {
            ReadFailure::Transient => ReadStep::Retry,
            ReadFailure::Recoverable => ReadStep::AwaitNext,
            ReadFailure::Fatal => ReadStep::Close,
        },
    }
}

/// One connection's protocol state after a response.
#[derive(Debug, Clone, Copy, PartialEq, Eq, Structural)]
pub enum ConnState {
    /// The handler reads the next framed key.
    AwaitingKey,
    /// The handler stops: no further key is read on this connection.
    Closed,
}

/// Decides what follows a dispatched command: its outcome's response is
/// always owed to this connection first; only then, if the shutdown flag was
/// observed, the connection stops taking keys.
pub fn after_dispatch(outcome: &RunOutcome, halting: bool) -> (r: (Vec<u8>, ConnState))
    ensures
        r.0@ == response_for(*outcome),
        r.1 is Closed <==> halting,
{
    let response = encode_outcome(outcome);
    if halting {
        (response, ConnState::Closed)
    } else {
        (response, ConnState::AwaitingKey)
    }
}

} // verus!
