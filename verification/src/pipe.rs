//! The adapter that carries a byte stream over a lower pipe: what it holds
//! between two polls, and what it decides at each.
//!
//! The adapter does no input or output. Whoever owns the lower pipe asks it
//! what to send, tells it what was sent and what arrived, and takes the
//! plaintext out. Each step is one call, so a poll that cannot go on returns
//! to its caller and comes back later to the same state.

use std::collections::VecDeque;
use vstd::prelude::*;
use crate::bytes::append;
use crate::params::ObfsParams;
use crate::state::{
    frame_count, frames, fresh, lemma_directions, owed_after, parsed, EngineError, State,
    StateView,
};
use crate::stream::{
    absorb, absorb_all, concat, lemma_parsed_again, lemma_parsed_bounds, lemma_round_trip,
    Receiver,
};

verus! {

/// What a [`SosistabPipe`] stands for.
pub struct PipeView {
    /// The engine of the session.
    pub state: StateView,
    /// Plaintext that was read off the wire and not yet taken out.
    pub read_buf: Seq<u8>,
    /// Whether the lower pipe has reported its end.
    pub read_closed: bool,
    /// Bytes that arrived and are not yet a whole frame.
    pub raw: Seq<u8>,
    /// Frames that were made and not yet accepted by the lower pipe.
    pub unsent: Seq<u8>,
    /// Why reading is over, if it is.
    pub failed: Option<EngineError>,
}

impl PipeView {
    /// The reading half, as a [`Receiver`].
    pub open spec fn receiver(self) -> Receiver {
        Receiver {
            key: self.state.recv_key,
            counter: self.state.received,
            pending: self.raw,
            plain: self.read_buf,
            error: self.failed,
        }
    }
}

/// The view of the adapter of a session that has just been established.
pub open spec fn established(state: StateView) -> PipeView {
    PipeView {
        state,
        read_buf: Seq::empty(),
        read_closed: false,
        raw: Seq::empty(),
        unsent: Seq::empty(),
        failed: None,
    }
}

/// What one side of a new session writes first, the other side reads,
/// however the lower pipe cuts it into chunks: the two sides hold engines on
/// one secret in opposite roles, the chunks make up the frames that the
/// writer's first write leaves unsent, and the reader, once it has taken
/// them all in, holds the plaintext and nothing pending.
pub proof fn lemma_peers_round_trip(
    secret: Seq<u8>,
    writer_is_server: bool,
    params: ObfsParams,
    plain: Seq<u8>,
    chunks: Seq<Seq<u8>>,
)
    requires
        frame_count(plain.len() as int) <= u64::MAX,
        concat(chunks) == frames(
            fresh(secret, writer_is_server, params).send_key,
            0,
            params,
            plain,
        ),
    ensures
        absorb_all(established(fresh(secret, !writer_is_server, params)).receiver(), chunks) == (
        Receiver {
            key: fresh(secret, !writer_is_server, params).recv_key,
            counter: frame_count(plain.len() as int) as u64,
            pending: Seq::empty(),
            plain,
            error: None,
        }),
{
    lemma_directions(secret, params);
    let key = fresh(secret, writer_is_server, params).send_key;
    lemma_round_trip(key, 0, params, Seq::empty(), plain, chunks);
    assert(Seq::<u8>::empty() + plain =~= plain);
}

/// What to do after the lower pipe has accepted some bytes during a flush.
#[derive(Clone, Copy, Debug, PartialEq, Eq, Structural)]
pub enum FlushStep {
    /// Unsent bytes are left: the flush is not done yet.
    Pending,
    /// Nothing is left unsent: flush the lower pipe.
    FlushLower,
}

/// An established connection, without the lower pipe it runs over.
pub struct SosistabPipe {
    state: State,
    read_buf: VecDeque<u8>,
    read_closed: bool,
    raw_read_buf: Vec<u8>,
    to_write_buf: Vec<u8>,
    failed: Option<EngineError>,
}

impl View for SosistabPipe {
    type V = PipeView;

    closed spec fn view(&self) -> PipeView {
        PipeView {
            state: self.state@,
            read_buf: self.read_buf@,
            read_closed: self.read_closed,
            raw: self.raw_read_buf@,
            unsent: self.to_write_buf@,
            failed: self.failed,
        }
    }
}

impl SosistabPipe {
    /// The adapter of a session that has just been established: nothing
    /// read, nothing to send.
    pub fn new(state: State) -> (r: SosistabPipe)
        ensures
            r@ == established(state@),
    {
        SosistabPipe {
            state,
            read_buf: VecDeque::new(),
            read_closed: false,
            raw_read_buf: Vec::new(),
            to_write_buf: Vec::new(),
            failed: None,
        }
    }

    /// The name of the protocol.
    pub fn protocol(&self) -> (r: &'static str)
        ensures
            r@ == "sosistab3"@,
    {
        "sosistab3"
    }

    /// The secret of the session, the same on both sides.
    pub fn shared_secret(&self) -> (r: &[u8; 32])
        ensures
            r@ == self@.state.secret,
    {
        self.state.shared_secret()
    }

    /// First step of a write of `buf`. Where nothing is left unsent, `buf`
    /// is encrypted, whole, into the unsent bytes. Where something is left,
    /// this is the same write coming back after the lower pipe was not
    /// ready, and nothing is done: a caller that comes back with other bytes
    /// loses them. Fails, and changes nothing, where the engine cannot number
    /// the frames.
    pub fn write_start(&mut self, buf: &[u8]) -> (r: Result<(), EngineError>)
        ensures
            old(self)@.unsent.len() > 0 ==> r is Ok && final(self)@ == old(self)@,
            old(self)@.unsent.len() == 0 ==> (r is Ok <==> old(self)@.state.sent + frame_count(
                buf@.len() as int,
            ) <= u64::MAX),
            r is Err ==> r == Err::<(), EngineError>(EngineError::Exhausted) && final(self)@
                == old(self)@,
            old(self)@.unsent.len() == 0 && r is Ok ==> final(self)@.state.sent == old(
                self,
            )@.state.sent + frame_count(buf@.len() as int) && final(self)@ == (PipeView {
                unsent: frames(
                    old(self)@.state.send_key,
                    old(self)@.state.sent,
                    old(self)@.state.params,
                    buf@,
                ),
                state: StateView {
                    sent: final(self)@.state.sent,
                    owed_delay: owed_after(old(self)@.state, frame_count(buf@.len() as int)),
                    ..old(self)@.state
                },
                ..old(self)@
            }),
    {
        if self.to_write_buf.is_empty() {
            let r = self.state.encrypt(buf, &mut self.to_write_buf);
            assert(old(self)@.unsent + frames(
                old(self)@.state.send_key,
                old(self)@.state.sent,
                old(self)@.state.params,
                buf@,
            ) =~= frames(
                old(self)@.state.send_key,
                old(self)@.state.sent,
                old(self)@.state.params,
                buf@,
            ));
            r
        } else {
            Ok(())
        }
    }

    /// The bytes to hand to the lower pipe next.
    pub fn unsent(&self) -> (r: &[u8])
        ensures
            r@ == self@.unsent,
    {
        self.to_write_buf.as_slice()
    }

    /// Takes note that the lower pipe has accepted the first `n` unsent
    /// bytes.
    fn sent(&mut self, n: usize)
        requires
            n <= old(self)@.unsent.len(),
        ensures
            final(self)@ == (PipeView {
                unsent: old(self)@.unsent.subrange(n as int, old(self)@.unsent.len() as int),
                ..old(self)@
            }),
    {
        let rest = self.to_write_buf.split_off(n);
        self.to_write_buf = rest;
    }

    /// Next step of a write of `plain_len` bytes, after the lower pipe has
    /// accepted the first `n` unsent bytes: the write is done, and all
    /// `plain_len` bytes count as written, once nothing is left unsent;
    /// until then there is more to hand to the lower pipe.
    pub fn write_advance(&mut self, n: usize, plain_len: usize) -> (r: Option<usize>)
        requires
            n <= old(self)@.unsent.len(),
        ensures
            final(self)@ == (PipeView {
                unsent: old(self)@.unsent.subrange(n as int, old(self)@.unsent.len() as int),
                ..old(self)@
            }),
            r == if n == old(self)@.unsent.len() {
                Some(plain_len)
            } else {
                None
            },
    {
        self.sent(n);
        if self.to_write_buf.is_empty() {
            Some(plain_len)
        } else {
            None
        }
    }

    /// Whether a flush has to hand unsent bytes to the lower pipe before it
    /// can flush it.
    pub fn flush_needs_write(&self) -> (r: bool)
        ensures
            r == (self@.unsent.len() > 0),
    {
        !self.to_write_buf.is_empty()
    }

    /// Next step of a flush, after the lower pipe has accepted the first `n`
    /// unsent bytes: flush the lower pipe once nothing is left unsent; until
    /// then the flush is pending.
    pub fn flush_advance(&mut self, n: usize) -> (r: FlushStep)
        requires
            n <= old(self)@.unsent.len(),
        ensures
            final(self)@ == (PipeView {
                unsent: old(self)@.unsent.subrange(n as int, old(self)@.unsent.len() as int),
                ..old(self)@
            }),
            r == if n == old(self)@.unsent.len() {
                FlushStep::FlushLower
            } else {
                FlushStep::Pending
            },
    {
        self.sent(n);
        if self.to_write_buf.is_empty() {
            FlushStep::FlushLower
        } else {
            FlushStep::Pending
        }
    }

    /// Hands out the pause, in milliseconds, that the writes since the last
    /// call have added up to.
    pub fn take_delay(&mut self) -> (r: u64)
        ensures
            r == old(self)@.state.owed_delay,
            final(self)@ == (PipeView {
                state: StateView { owed_delay: 0, ..old(self)@.state },
                ..old(self)@
            }),
    {
        self.state.take_delay()
    }

    /// Whether a read can be served at once: there is plaintext to take out,
    /// or the lower pipe has reported its end.
    pub fn read_ready(&self) -> (r: bool)
        ensures
            r == (self@.read_buf.len() > 0 || self@.read_closed),
    {
        self.read_buf.len() > 0 || self.read_closed
    }

    /// Takes out the plaintext that is there, `max` bytes of it at most, from
    /// the front. At the end of the stream there is none.
    pub fn read_take(&mut self, max: usize) -> (r: Vec<u8>)
        ensures
            r@.len() == if max <= old(self)@.read_buf.len() {
                max as int
            } else {
                old(self)@.read_buf.len() as int
            },
            r@ == old(self)@.read_buf.subrange(0, r@.len() as int),
            final(self)@ == (PipeView {
                read_buf: old(self)@.read_buf.subrange(
                    r@.len() as int,
                    old(self)@.read_buf.len() as int,
                ),
                ..old(self)@
            }),
    {
        let mut r: Vec<u8> = Vec::new();
        let ghost all = self.read_buf@;
        assert(all.subrange(0, all.len() as int) =~= all);
        while r.len() < max && self.read_buf.len() > 0
            invariant
                r@.len() <= max,
                r@.len() <= all.len(),
                all == old(self)@.read_buf,
                r@ == all.subrange(0, r@.len() as int),
                self@ == (PipeView {
                    read_buf: all.subrange(r@.len() as int, all.len() as int),
                    ..old(self)@
                }),
            decreases self.read_buf@.len(),
        {
            let ghost before = r@;
            match self.read_buf.pop_front() {
                Some(b) => {
                    r.push(b);
                    proof {
                        assert(r@ =~= all.subrange(0, r@.len() as int));
                        assert(self.read_buf@ =~= all.subrange(r@.len() as int, all.len() as int));
                    }
                },
                None => {},
            }
        }
        r
    }

    /// Takes in what a read of the lower pipe gave. No bytes mean its end.
    /// Bytes are put behind those that are pending; the whole frames at the
    /// front are then read, again and again until no whole frame is left,
    /// and their payloads are put behind the plaintext that is there. What
    /// follows the frames stays pending. Fails where what follows a frame is
    /// no frame at all: reading is then over, and every later call fails the
    /// same way and changes nothing.
    pub fn read_fill(&mut self, data: &[u8]) -> (r: Result<(), EngineError>)
        ensures
            match r {
                Ok(()) => final(self)@.failed is None,
                Err(e) => final(self)@.failed == Some(e),
            },
            old(self)@.failed is Some ==> final(self)@ == old(self)@,
            old(self)@.failed is None && data@.len() == 0 ==> final(self)@ == (PipeView {
                read_closed: true,
                ..old(self)@
            }),
            old(self)@.failed is None && data@.len() > 0 ==> final(self)@.receiver() == absorb(
                old(self)@.receiver(),
                data@,
            ) && final(self)@.state.received == old(self)@.state.received + parsed(
                old(self)@.state.recv_key,
                old(self)@.state.received,
                old(self)@.raw + data@,
            ).frames && final(self)@ == (PipeView {
                state: StateView {
                    received: final(self)@.state.received,
                    ..old(self)@.state
                },
                read_buf: final(self)@.read_buf,
                raw: final(self)@.raw,
                failed: final(self)@.failed,
                ..old(self)@
            }),
    {
        if let Some(e) = self.failed {
            return Err(e);
        }
        if data.len() == 0 {
            self.read_closed = true;
            return Ok(());
        }
        append(&mut self.raw_read_buf, data);
        let ghost start = self@;
        let ghost key = start.state.recv_key;
        let ghost all = start.raw;
        let ghost whole = parsed(key, start.state.received, all);
        let ghost mut done: int = 0;
        let mut plain: Vec<u8> = Vec::new();
        let mut outcome: Result<(), EngineError> = Ok(());
        proof {
            assert(all.subrange(0, all.len() as int) =~= all);
            assert(plain@ + whole.plain =~= whole.plain);
            lemma_parsed_bounds(key, start.state.received, all);
        }
        loop
            invariant_except_break
                self.raw_read_buf@ == all.subrange(done, all.len() as int),
                self@ == (PipeView {
                    state: StateView { received: self.state@.received, ..start.state },
                    raw: self.raw_read_buf@,
                    ..start
                }),
                outcome is Ok,
                ({
                    let rest = parsed(key, self.state@.received, self.raw_read_buf@);
                    &&& whole.consumed == done + rest.consumed
                    &&& whole.frames == self.state@.received - start.state.received + rest.frames
                    &&& whole.plain == plain@ + rest.plain
                    &&& whole.error == rest.error
                }),
            invariant
                start == (PipeView { raw: old(self)@.raw + data@, ..old(self)@ }),
                start.failed is None,
                key == start.state.recv_key,
                all == start.raw,
                whole == parsed(key, start.state.received, all),
                0 <= done <= all.len(),
            ensures
                self@ == (PipeView {
                    state: StateView { received: self.state@.received, ..start.state },
                    raw: self.raw_read_buf@,
                    failed: self.failed,
                    ..start
                }),
                self.state@.received == start.state.received + whole.frames,
                plain@ == whole.plain,
                match outcome {
                    Ok(()) => self.failed is None && whole.error is None && self.raw_read_buf@
                        == all.subrange(whole.consumed, all.len() as int),
                    Err(e) => self.failed == Some(e) && whole.error == Some(e)
                        && self.raw_read_buf@ == Seq::<u8>::empty(),
                },
            decreases self.raw_read_buf@.len(),
        {
            let ghost raw = self.raw_read_buf@;
            let ghost counter = self.state@.received;
            proof {
                lemma_parsed_bounds(key, counter, raw);
                lemma_parsed_again(key, counter, raw);
            }
            match self.state.decrypt(self.raw_read_buf.as_slice(), &mut plain) {
                Ok(consumed) => {
                    if consumed == 0 {
                        proof {
                            let rest = parsed(key, counter, raw);
                            assert(rest.plain =~= Seq::<u8>::empty());
                            assert(plain@ =~= whole.plain);
                        }
                        break ;
                    }
                    let left = self.raw_read_buf.split_off(consumed);
                    self.raw_read_buf = left;
                    proof {
                        done = done + consumed;
                        assert(self.raw_read_buf@ =~= all.subrange(done, all.len() as int));
                        assert(plain@ + Seq::<u8>::empty() =~= plain@);
                    }
                },
                Err(e) => {
                    self.failed = Some(e);
                    self.raw_read_buf.clear();
                    outcome = Err(e);
                    break ;
                },
            }
        }
        let n: usize = plain.len();
        let mut i: usize = 0;
        let ghost settled = self@;
        assert(plain@.subrange(0, 0) =~= Seq::<u8>::empty());
        assert(settled.read_buf + Seq::<u8>::empty() =~= settled.read_buf);
        while i < n
            invariant
                i <= n == plain@.len(),
                self@ == (PipeView {
                    read_buf: settled.read_buf + plain@.subrange(0, i as int),
                    ..settled
                }),
            decreases n - i,
        {
            self.read_buf.push_back(plain[i]);
            i += 1;
            assert(settled.read_buf + plain@.subrange(0, i as int) =~= (settled.read_buf
                + plain@.subrange(0, i - 1)).push(plain@[i - 1]));
        }
        assert(plain@.subrange(0, n as int) =~= plain@);
        outcome
    }
}

} // verus!
