use vstd::prelude::*;

use crate::response::{fixed_response, RESPONSE_LEN};

verus! {

/// Capacity of the buffer that holds a request while it is being read.
pub const REQUEST_CAPACITY: usize = 1024;

/// The end-of-request delimiter: CR LF CR LF.
pub open spec fn delimiter() -> Seq<u8> {
    seq![13u8, 10u8, 13u8, 10u8]
}

/// Whether the last four bytes of `b` are the delimiter.
pub open spec fn ends_with_delimiter(b: Seq<u8>) -> bool {
    b.len() >= 4 && b.subrange(b.len() - 4, b.len() as int) == delimiter()
}

/// Whether the delimiter occurs anywhere in `b`.
pub open spec fn contains_delimiter(b: Seq<u8>) -> bool {
    exists|i: int| 0 <= i && i + 4 <= b.len() && #[trigger] b.subrange(i, i + 4) == delimiter()
}

/// The mathematical content of a phase.
pub enum Stage {
    Reading(Seq<u8>),
    Writing(nat),
    Flushing,
}

/// Position of a stage in the order Reading, Writing, Flushing.
pub open spec fn rank(s: Stage) -> nat {
    match s {
        Stage::Reading(_) => 0,
        Stage::Writing(_) => 1,
        Stage::Flushing => 2,
    }
}

/// The phase of one connection. While reading, `buffer` holds the bytes
/// received so far (its length is the filled count, bounded by
/// `REQUEST_CAPACITY`); while writing, `sent` counts the bytes of the fixed
/// response already handed to the peer.
pub enum Phase {
    Reading { buffer: Vec<u8> },
    Writing { sent: usize },
    Flushing,
}

/// The result of one non-blocking read: the bytes read (none means the peer
/// closed), would-block, or any other error.
pub enum ReadResult {
    Data(Vec<u8>),
    WouldBlock,
    Failed,
}

/// The result of one non-blocking write: the count of bytes written (zero
/// means the peer closed), would-block, or any other error.
pub enum WriteResult {
    Written(usize),
    WouldBlock,
    Failed,
}

/// The result of one non-blocking flush.
pub enum FlushResult {
    Flushed,
    WouldBlock,
    Failed,
}

/// What a phase reports after one I/O attempt.
#[derive(Clone, Copy, PartialEq, Eq, Debug, Structural)]
pub enum Signal {
    /// Bytes moved and the phase is not over: attempt the same operation again now.
    Progress,
    /// The operation would block: come back on a later tick.
    Continue,
    /// The phase is over.
    PhaseComplete,
    /// The peer closed before the phase was over.
    PeerClosed,
    /// Any other I/O error.
    Fatal,
}

/// The one operation that a phase asks for next.
#[derive(Clone, Copy, PartialEq, Eq, Debug, Structural)]
pub enum Step {
    /// Read at most `room` bytes.
    Read { room: usize },
    /// Write the fixed response from offset `from` on.
    Write { from: usize },
    /// Flush the connection.
    Flush,
}

/// How a connection ended.
#[derive(Clone, Copy, PartialEq, Eq, Debug, Structural)]
pub enum Ending {
    Served,
    PeerClosed,
    Failed,
}

/// What the event loop does with a connection after one I/O attempt.
#[derive(Clone, Copy, PartialEq, Eq, Debug, Structural)]
pub enum Outcome {
    /// Attempt the connection's next step within the same tick.
    Again,
    /// Leave the connection in place until the next tick.
    Yield,
    /// Record the connection for removal.
    Finished(Ending),
}

/// Signal and next stage after a read that returned `d` in stage `Reading(b)`.
pub open spec fn read_data(b: Seq<u8>, d: Seq<u8>) -> (Signal, Stage) {
    if d.len() == 0 {
        (Signal::PeerClosed, Stage::Reading(b))
    } else if ends_with_delimiter(b + d) {
        (Signal::PhaseComplete, Stage::Writing(0))
    } else {
        (Signal::Progress, Stage::Reading(b + d))
    }
}

/// Signal and next stage after the read result `r` in stage `Reading(b)`.
pub open spec fn read_outcome(b: Seq<u8>, r: ReadResult) -> (Signal, Stage) {
    match r {
        ReadResult::Data(d) => read_data(b, d@),
        ReadResult::WouldBlock => (Signal::Continue, Stage::Reading(b)),
        ReadResult::Failed => (Signal::Fatal, Stage::Reading(b)),
    }
}

/// Signal and next stage after a write of `k` bytes in stage `Writing(n)`.
pub open spec fn write_data(n: nat, k: nat) -> (Signal, Stage) {
    if k == 0 {
        (Signal::PeerClosed, Stage::Writing(n))
    } else if n + k == RESPONSE_LEN {
        (Signal::PhaseComplete, Stage::Flushing)
    } else {
        (Signal::Progress, Stage::Writing(n + k))
    }
}

/// Signal and next stage after the write result `r` in stage `Writing(n)`.
pub open spec fn write_outcome(n: nat, r: WriteResult) -> (Signal, Stage) {
    match r {
        WriteResult::Written(k) => write_data(n, k as nat),
        WriteResult::WouldBlock => (Signal::Continue, Stage::Writing(n)),
        WriteResult::Failed => (Signal::Fatal, Stage::Writing(n)),
    }
}

/// Signal after the flush result `r`.
pub open spec fn flush_outcome(r: FlushResult) -> Signal {
    match r {
        FlushResult::Flushed => Signal::PhaseComplete,
        FlushResult::WouldBlock => Signal::Continue,
        FlushResult::Failed => Signal::Fatal,
    }
}

/// The step that a stage asks for.
pub open spec fn step_of(s: Stage) -> Step {
    match s {
        Stage::Reading(b) => Step::Read { room: (REQUEST_CAPACITY - b.len()) as usize },
        Stage::Writing(n) => Step::Write { from: n as usize },
        Stage::Flushing => Step::Flush,
    }
}

/// What the event loop does after `step` reported `sig`.
pub open spec fn settled(step: Step, sig: Signal) -> Outcome {
    match sig {
        Signal::Progress => Outcome::Again,
        Signal::Continue => Outcome::Yield,
        Signal::PhaseComplete => if step is Flush {
            Outcome::Finished(Ending::Served)
        } else {
            Outcome::Again
        },
        Signal::PeerClosed => Outcome::Finished(Ending::PeerClosed),
        Signal::Fatal => Outcome::Finished(Ending::Failed),
    }
}

/// Decides what happens to a connection after `step` reported `sig`: a phase
/// that made progress or completed goes on within the same tick, a would-block
/// waits for the next tick, and a completed flush, a closed peer or an error
/// end the connection.
pub fn settle(step: Step, sig: Signal) -> (r: Outcome)
    ensures
        r == settled(step, sig),
{
    match sig {
        Signal::Progress => Outcome::Again,
        Signal::Continue => Outcome::Yield,
        Signal::PhaseComplete => match step {
            Step::Flush => Outcome::Finished(Ending::Served),
            _ => Outcome::Again,
        },
        Signal::PeerClosed => Outcome::Finished(Ending::PeerClosed),
        Signal::Fatal => Outcome::Finished(Ending::Failed),
    }
}

fn ends_with_crlfcrlf(b: &Vec<u8>) -> (r: bool)
    ensures
        r == ends_with_delimiter(b@),
{
    let n = b.len();
    if n < 4 {
        return false;
    }
    let r = b[n - 4] == 13 && b[n - 3] == 10 && b[n - 2] == 13 && b[n - 1] == 10;
    let ghost tail = b@.subrange(n - 4, n as int);
    if r {
        assert(tail =~= delimiter());
    } else {
        assert(tail != delimiter()) by {
            if tail == delimiter() {
                assert(tail[0] == delimiter()[0]);
                assert(tail[1] == delimiter()[1]);
                assert(tail[2] == delimiter()[2]);
                assert(tail[3] == delimiter()[3]);
            }
        }
    }
    r
}

impl Phase {
    /// The mathematical content of this phase.
    pub open spec fn stage(&self) -> Stage {
        match self {
            Phase::Reading { buffer } => Stage::Reading(buffer@),
            Phase::Writing { sent } => Stage::Writing(*sent as nat),
            Phase::Flushing => Stage::Flushing,
        }
    }

    /// The filled count never exceeds the buffer's capacity, and the sent
    /// count never exceeds the response's length.
    pub open spec fn wf(&self) -> bool {
        match self.stage() {
            Stage::Reading(b) => b.len() <= REQUEST_CAPACITY,
            Stage::Writing(n) => n <= RESPONSE_LEN,
            Stage::Flushing => true,
        }
    }

    /// The phase of a newly accepted connection: reading, nothing filled.
    pub fn new() -> (p: Phase)
        ensures
            p.stage() == Stage::Reading(Seq::empty()),
            p.wf(),
    {
        Phase::Reading { buffer: Vec::new() }
    }

    /// The one I/O operation that this phase asks for next.
    pub fn next_step(&self) -> (s: Step)
        requires
            self.wf(),
        ensures
            s == step_of(self.stage()),
    {
        match self {
            Phase::Reading { buffer } => Step::Read { room: REQUEST_CAPACITY - buffer.len() },
            Phase::Writing { sent } => Step::Write { from: *sent },
            Phase::Flushing => Step::Flush,
        }
    }
    /// Applies one read result to a reading phase. Received bytes are
    /// appended; if the buffer then ends with the delimiter the phase becomes
    /// writing with nothing sent (`PhaseComplete`), else it keeps reading and
    /// asks to read again at once (`Progress`). No bytes means the peer closed;
    /// would-block and errors leave the phase as it was.
    pub fn advance_read(&mut self, r: ReadResult) -> (s: Signal)
        requires
            old(self).wf(),
            old(self).stage() is Reading,
            r matches ReadResult::Data(d) ==> old(self).stage()->Reading_0.len() + d@.len()
                <= REQUEST_CAPACITY,
        ensures
            (s, final(self).stage()) == read_outcome(old(self).stage()->Reading_0, r),
            final(self).wf(),
    {
        match self {
            Phase::Reading { buffer } => match r {
                ReadResult::Data(mut d) => {
                    if d.len() == 0 {
                        return Signal::PeerClosed;
                    }
                    buffer.append(&mut d);
                    if !ends_with_crlfcrlf(buffer) {
                        return Signal::Progress;
                    }
                },
                ReadResult::WouldBlock => {
                    return Signal::Continue;
                },
                ReadResult::Failed => {
                    return Signal::Fatal;
                },
            },
            _ => {
                return Signal::Fatal;
            },
        };
        *self = Phase::Writing { sent: 0 };
        Signal::PhaseComplete
    }

    /// Applies one write result to a writing phase. Written bytes are added to
    /// the sent count; once the whole response is sent the phase becomes
    /// flushing (`PhaseComplete`), else it asks to write again at once
    /// (`Progress`). Zero bytes written means the peer closed; would-block and
    /// errors leave the phase as it was.
    pub fn advance_write(&mut self, r: WriteResult) -> (s: Signal)
        requires
            old(self).wf(),
            old(self).stage() is Writing,
            r matches WriteResult::Written(k) ==> old(self).stage()->Writing_0 + k <= RESPONSE_LEN,
        ensures
            (s, final(self).stage()) == write_outcome(old(self).stage()->Writing_0, r),
            final(self).wf(),
    {
        match self {
            Phase::Writing { sent } => match r {
                WriteResult::Written(k) => {
                    if k == 0 {
                        return Signal::PeerClosed;
                    }
                    *sent = *sent + k;
                    if *sent != RESPONSE_LEN {
                        return Signal::Progress;
                    }
                },
                WriteResult::WouldBlock => {
                    return Signal::Continue;
                },
                WriteResult::Failed => {
                    return Signal::Fatal;
                },
            },
            _ => {
                return Signal::Fatal;
            },
        };
        *self = Phase::Flushing;
        Signal::PhaseComplete
    }

    /// Applies one flush result to a flushing phase, which stays as it is:
    /// success completes it, would-block waits for a later tick.
    pub fn advance_flush(&mut self, r: FlushResult) -> (s: Signal)
        requires
            old(self).wf(),
            old(self).stage() is Flushing,
        ensures
            s == flush_outcome(r),
            final(self).stage() == Stage::Flushing,
            final(self).wf(),
    {
        match r {
            FlushResult::Flushed => Signal::PhaseComplete,
            FlushResult::WouldBlock => Signal::Continue,
            FlushResult::Failed => Signal::Fatal,
        }
    }
}

/// The bytes of `chunks` joined in order.
pub open spec fn joined(chunks: Seq<Seq<u8>>) -> Seq<u8>
    decreases chunks.len(),
{
    if chunks.len() == 0 {
        Seq::empty()
    } else {
        joined(chunks.drop_last()) + chunks.last()
    }
}

/// The stage reached from `Reading(b)` when successive reads return `chunks`
/// (once reading is over, later chunks are not read).
pub open spec fn feed(b: Seq<u8>, chunks: Seq<Seq<u8>>) -> Stage
    decreases chunks.len(),
{
    if chunks.len() == 0 {
        Stage::Reading(b)
    } else {
        match feed(b, chunks.drop_last()) {
            Stage::Reading(c) => read_data(c, chunks.last()).1,
            other => other,
        }
    }
}

/// The sum of `amounts`.
pub open spec fn total(amounts: Seq<nat>) -> nat
    decreases amounts.len(),
{
    if amounts.len() == 0 {
        0
    } else {
        total(amounts.drop_last()) + amounts.last()
    }
}

/// The bytes that reach the peer when successive writes of the response's
/// remainder accept `amounts` bytes each.
pub open spec fn delivered(amounts: Seq<nat>) -> Seq<u8>
    decreases amounts.len(),
{
    if amounts.len() == 0 {
        Seq::empty()
    } else {
        let from = total(amounts.drop_last());
        delivered(amounts.drop_last()) + fixed_response().subrange(
            from as int,
            (from + amounts.last()) as int,
        )
    }
}

/// The stage reached from `Writing(0)` when successive writes accept
/// `amounts` bytes each (once writing is over, later amounts are not written).
pub open spec fn drain(amounts: Seq<nat>) -> Stage
    decreases amounts.len(),
{
    if amounts.len() == 0 {
        Stage::Writing(0)
    } else {
        match drain(amounts.drop_last()) {
            Stage::Writing(n) => write_data(n, amounts.last()).1,
            other => other,
        }
    }
}

proof fn lemma_joined_prefix(chunks: Seq<Seq<u8>>, j: int)
    requires
        0 <= j <= chunks.len(),
    ensures
        joined(chunks.take(j)).len() <= joined(chunks).len(),
        joined(chunks.take(j)) == joined(chunks).take(joined(chunks.take(j)).len() as int),
    decreases chunks.len(),
{
    if j == chunks.len() {
        assert(chunks.take(j) =~= chunks);
    } else {
        lemma_joined_prefix(chunks.drop_last(), j);
        assert(chunks.drop_last().take(j) =~= chunks.take(j));
        let p = joined(chunks.take(j));
        assert(joined(chunks) == joined(chunks.drop_last()) + chunks.last());
        assert(joined(chunks).take(p.len() as int) =~= joined(chunks.drop_last()).take(
            p.len() as int,
        ));
    }
}

/// A request stream without the delimiter, shorter than the buffer, never
/// completes reading: however its bytes are split across reads, the
/// connection is still reading and holds every byte received.
pub proof fn lemma_no_delimiter_keeps_reading(chunks: Seq<Seq<u8>>)
    requires
        forall|i: int| 0 <= i < chunks.len() ==> #[trigger] chunks[i].len() > 0,
        !contains_delimiter(joined(chunks)),
        joined(chunks).len() < REQUEST_CAPACITY,
    ensures
        feed(Seq::empty(), chunks) == Stage::Reading(joined(chunks)),
    decreases chunks.len(),
{
    if chunks.len() > 0 {
        let s = joined(chunks);
        let p = joined(chunks.drop_last());
        assert(s == p + chunks.last());
        assert(p.len() <= s.len());
        if contains_delimiter(p) {
            let i = choose|i: int|
                0 <= i && i + 4 <= p.len() && #[trigger] p.subrange(i, i + 4) == delimiter();
            assert(s.subrange(i, i + 4) =~= p.subrange(i, i + 4));
        }
        assert(forall|i: int|
            0 <= i < chunks.drop_last().len() ==> #[trigger] chunks.drop_last()[i] == chunks[i]);
        lemma_no_delimiter_keeps_reading(chunks.drop_last());
        assert(chunks.last() == chunks[chunks.len() - 1]);
        if ends_with_delimiter(s) {
            assert(s.subrange(s.len() - 4, s.len() - 4 + 4) == delimiter());
        }
    }
}

/// A request stream whose first delimiter ends its last byte completes
/// reading exactly when that byte arrives: however the stream is split
/// across reads, the connection is still reading after every read before
/// the last, and the last one moves it to writing with nothing sent.
pub proof fn lemma_completes_at_first_delimiter(chunks: Seq<Seq<u8>>)
    requires
        forall|i: int| 0 <= i < chunks.len() ==> #[trigger] chunks[i].len() > 0,
        joined(chunks).len() <= REQUEST_CAPACITY,
        ends_with_delimiter(joined(chunks)),
        !contains_delimiter(joined(chunks).drop_last()),
    ensures
        feed(Seq::empty(), chunks) == Stage::Writing(0),
        forall|j: int|
            0 <= j < chunks.len() ==> #[trigger] feed(Seq::empty(), chunks.take(j))
                == Stage::Reading(joined(chunks.take(j))),
{
    let s = joined(chunks);
    assert(chunks.len() > 0) by {
        if chunks.len() == 0 {
            assert(s.len() == 0);
        }
    }
    assert forall|j: int| 0 <= j < chunks.len() implies #[trigger] feed(
        Seq::empty(),
        chunks.take(j),
    ) == Stage::Reading(joined(chunks.take(j))) by {
        let part = chunks.take(j);
        lemma_joined_prefix(chunks, j);
        lemma_joined_prefix(chunks.drop_last(), j);
        assert(chunks.drop_last().take(j) =~= part);
        assert(s == joined(chunks.drop_last()) + chunks.last());
        assert(chunks.last() == chunks[chunks.len() - 1]);
        let p = joined(part);
        assert(p.len() < s.len());
        if contains_delimiter(p) {
            let i = choose|i: int|
                0 <= i && i + 4 <= p.len() && #[trigger] p.subrange(i, i + 4) == delimiter();
            assert(s.drop_last().subrange(i, i + 4) =~= p.subrange(i, i + 4));
        }
        assert forall|i: int| 0 <= i < part.len() implies #[trigger] part[i].len() > 0 by {
            assert(part[i] == chunks[i]);
        }
        lemma_no_delimiter_keeps_reading(part);
    }
    let last = chunks.len() - 1;
    assert(chunks.take(last) =~= chunks.drop_last());
    assert(feed(Seq::empty(), chunks.drop_last()) == Stage::Reading(joined(chunks.drop_last())));
    assert(chunks.last() == chunks[last]);
}

/// Whatever amounts the peer accepts per write, the bytes that reach it are
/// the response's first bytes, in order and without repetition; the
/// connection moves on to flushing exactly when the whole response is out,
/// and then the peer has received exactly the fixed response.
pub proof fn lemma_delivers_response(amounts: Seq<nat>)
    requires
        forall|i: int| 0 <= i < amounts.len() ==> #[trigger] amounts[i] > 0,
        total(amounts) <= RESPONSE_LEN,
    ensures
        delivered(amounts) == fixed_response().take(total(amounts) as int),
        drain(amounts) == (if total(amounts) == RESPONSE_LEN {
            Stage::Flushing
        } else {
            Stage::Writing(total(amounts))
        }),
        drain(amounts) is Flushing ==> delivered(amounts) == fixed_response(),
    decreases amounts.len(),
{
    if amounts.len() > 0 {
        let prev = amounts.drop_last();
        assert(forall|i: int| 0 <= i < prev.len() ==> #[trigger] prev[i] == amounts[i]);
        assert(amounts.last() == amounts[amounts.len() - 1]);
        lemma_delivers_response(prev);
        assert(delivered(amounts) =~= fixed_response().take(total(amounts) as int));
    }
    if drain(amounts) is Flushing {
        assert(fixed_response().take(RESPONSE_LEN as int) =~= fixed_response());
    }
}

/// A read or write that moves fewer bytes than the phase needs is retried
/// within the same tick: the loop is told to go again, not to wait.
pub proof fn lemma_partial_transfer_retries(b: Seq<u8>, d: Seq<u8>, n: nat, k: nat)
    requires
        b.len() + d.len() <= REQUEST_CAPACITY,
        n + k <= RESPONSE_LEN,
    ensures
        d.len() > 0 ==> settled(step_of(Stage::Reading(b)), read_data(b, d).0)
            == Outcome::Again,
        k > 0 ==> settled(step_of(Stage::Writing(n)), write_data(n, k).0) == Outcome::Again,
{
}

/// Phases only move forward, Reading before Writing before Flushing, and a
/// completed phase always moves to the next one.
pub proof fn lemma_phases_move_forward(b: Seq<u8>, d: Seq<u8>, n: nat, k: nat)
    ensures
        rank(read_data(b, d).1) >= rank(Stage::Reading(b)),
        read_data(b, d).0 == Signal::PhaseComplete ==> read_data(b, d).1 == Stage::Writing(0),
        rank(write_data(n, k).1) >= rank(Stage::Writing(n)),
        write_data(n, k).0 == Signal::PhaseComplete ==> write_data(n, k).1 == Stage::Flushing,
{
}

} // verus!
