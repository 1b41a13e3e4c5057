//! The per-session engine: plaintext in, frames out, and back.
//!
//! A frame is two sealed messages under one frame counter. The first, on lane
//! 0, is a four-byte header: the payload's length and the padding's length,
//! two bytes each, big-endian. The second, on lane 1, is the payload followed
//! by that many zero bytes. Nothing on the wire is in the clear, and with
//! length obfuscation on, the length of a frame tells only the size class of
//! its payload.

use vstd::prelude::*;
use crate::aead::{open, opened, pad_block, pad_byte, seal, sealed};
use crate::bytes::{append, be16, from_be16, push_be16, read_be16};
use crate::kdf::{derive_key, derived_key};
use crate::params::ObfsParams;

verus! {

/// The most payload bytes one frame carries.
pub const MAX_PAYLOAD: usize = 8192;

/// Length on the wire of a frame's sealed header.
pub const HEADER_WIRE: usize = 20;

/// What a frame adds to its payload and padding: the sealed header and the
/// tag of the body.
pub const FRAME_OVERHEAD: usize = 36;

/// Why the engine gave up on a session. Each of these is final: the session
/// must not be used afterwards.
#[derive(Clone, Copy, Debug, PartialEq, Eq, Structural)]
pub enum EngineError {
    /// A sealed header or body does not carry the tag it should.
    Forged,
    /// A genuine header announces more than a frame may hold.
    Malformed,
    /// The frame counter has run out.
    Exhausted,
}

/// The size class of a payload of `n` bytes: the least power of two from
/// 64 to [`MAX_PAYLOAD`] that is no less than `n`; the largest for what is
/// longer than that.
pub open spec fn size_class(n: int) -> int {
    if n <= 64 {
        64
    } else if n <= 128 {
        128
    } else if n <= 256 {
        256
    } else if n <= 512 {
        512
    } else if n <= 1024 {
        1024
    } else if n <= 2048 {
        2048
    } else if n <= 4096 {
        4096
    } else {
        8192
    }
}

/// How many zero bytes follow a payload of `n` bytes: with length
/// obfuscation on, as many as fill its size class; none otherwise.
pub open spec fn padding(params: ObfsParams, n: int) -> int {
    if params.obfs_lengths && n <= 8192 {
        size_class(n) - n
    } else {
        0
    }
}

/// Length on the wire of a frame whose payload has `n` bytes.
pub open spec fn frame_len(params: ObfsParams, n: int) -> int {
    36 + n + padding(params, n)
}

/// How many frames carry `n` bytes of plaintext.
pub open spec fn frame_count(n: int) -> int {
    (n + 8191) / 8192
}

/// Length on the wire of the frames that carry `n` bytes of plaintext.
pub open spec fn wire_len(params: ObfsParams, n: int) -> int
    decreases n,
{
    if n <= 0 {
        0
    } else if n <= 8192 {
        frame_len(params, n)
    } else {
        frame_len(params, 8192) + wire_len(params, n - 8192)
    }
}

/// The header of a frame, before sealing.
pub open spec fn header(payload_len: int, pad_len: int) -> Seq<u8> {
    be16(payload_len as u16) + be16(pad_len as u16)
}

/// The two lengths that a header of four bytes announces, where a frame
/// can hold them: that of the payload and that of the padding.
pub open spec fn header_lengths(h: Seq<u8>) -> Option<(int, int)> {
    if h.len() == 4 && from_be16(h[0], h[1]) + from_be16(h[2], h[3]) <= 8192 {
        Some((from_be16(h[0], h[1]) as int, from_be16(h[2], h[3]) as int))
    } else {
        None
    }
}

/// `n` zero bytes.
pub open spec fn zeros(n: int) -> Seq<u8> {
    Seq::new(n as nat, |i: int| 0u8)
}

/// The frame that carries `payload` under `key` and `counter`.
pub open spec fn frame(key: Seq<u8>, counter: u64, params: ObfsParams, payload: Seq<u8>) -> Seq<u8> {
    let pad = padding(params, payload.len() as int);
    sealed(key, counter, 0, header(payload.len() as int, pad)) + sealed(
        key,
        counter,
        1,
        payload + zeros(pad),
    )
}

/// The frames that carry `plain`, the first under `counter`: `plain` is cut
/// into payloads of [`MAX_PAYLOAD`] bytes, the last one shorter where it does
/// not divide. No plaintext, no frame.
pub open spec fn frames(key: Seq<u8>, counter: u64, params: ObfsParams, plain: Seq<u8>) -> Seq<u8>
    decreases plain.len(),
{
    if plain.len() == 0 {
        Seq::empty()
    } else if plain.len() <= 8192 {
        frame(key, counter, params, plain)
    } else {
        frame(key, counter, params, plain.subrange(0, 8192)) + frames(
            key,
            (counter + 1) as u64,
            params,
            plain.subrange(8192, plain.len() as int),
        )
    }
}

/// The pause, in milliseconds, that the frame under `counter` adds when
/// timing obfuscation is on: a keystream byte on lane 2, reduced below
/// 16.
pub open spec fn jitter(key: Seq<u8>, counter: u64) -> int {
    (pad_byte(key, counter, 2, 0) % 16) as int
}

/// The pauses of `count` frames, the first under `counter`, added up.
pub open spec fn jitter_sum(key: Seq<u8>, counter: u64, count: int) -> int
    decreases count,
{
    if count <= 0 {
        0
    } else {
        jitter(key, counter) + jitter_sum(key, (counter + 1) as u64, count - 1)
    }
}

/// What the front of a received byte string holds.
pub enum Head {
    /// Not a whole frame yet.
    Short,
    /// Something that is no frame, and why.
    Bad(EngineError),
    /// A frame of `wire` bytes that carries `payload`.
    Frame { wire: int, payload: Seq<u8> },
}

/// Reads the front of `raw` as the frame under `counter`.
#[verifier::opaque]
pub open spec fn first_frame(key: Seq<u8>, counter: u64, raw: Seq<u8>) -> Head {
    if raw.len() < 20 {
        Head::Short
    } else {
        match opened(key, counter, 0, raw.subrange(0, 20)) {
            None => Head::Bad(EngineError::Forged),
            Some(h) => match header_lengths(h) {
                None => Head::Bad(EngineError::Malformed),
                Some((payload_len, pad_len)) => {
                    let wire = 36 + payload_len + pad_len;
                    if raw.len() < wire {
                        Head::Short
                    } else {
                        match opened(key, counter, 1, raw.subrange(20, wire)) {
                            None => Head::Bad(EngineError::Forged),
                            Some(body) => if counter == u64::MAX {
                                Head::Bad(EngineError::Exhausted)
                            } else {
                                Head::Frame { wire, payload: body.subrange(0, payload_len) }
                            },
                        }
                    }
                },
            },
        }
    }
}

/// What decrypting a byte string comes to.
pub struct Parsed {
    /// How many bytes the whole frames at the front take up.
    pub consumed: int,
    /// How many frames those are.
    pub frames: int,
    /// Their payloads, in order.
    pub plain: Seq<u8>,
    /// Why reading stopped, where it did not stop for want of bytes.
    pub error: Option<EngineError>,
}

/// Reads `raw` as frames, the first under `counter`, until what is left is
/// not a whole frame or is no frame at all.
pub open spec fn parsed(key: Seq<u8>, counter: u64, raw: Seq<u8>) -> Parsed
    decreases raw.len(),
{
    match first_frame(key, counter, raw) {
        Head::Short => Parsed { consumed: 0, frames: 0, plain: Seq::empty(), error: None },
        Head::Bad(e) => Parsed { consumed: 0, frames: 0, plain: Seq::empty(), error: Some(e) },
        Head::Frame { wire, payload } => {
            if 36 <= wire <= raw.len() {
                let rest = parsed(key, (counter + 1) as u64, raw.subrange(wire, raw.len() as int));
                Parsed {
                    consumed: wire + rest.consumed,
                    frames: 1 + rest.frames,
                    plain: payload + rest.plain,
                    error: rest.error,
                }
            } else {
                Parsed { consumed: 0, frames: 0, plain: Seq::empty(), error: None }
            }
        },
    }
}

/// The context string under which the key of one direction is derived from
/// the session secret.
pub open spec fn direction_context(from_server: bool) -> Seq<char> {
    if from_server {
        "sosistab3 frames from server to client"@
    } else {
        "sosistab3 frames from client to server"@
    }
}

/// The keys of the two directions are derived in different contexts, and
/// what one side sends under, the other receives under.
pub proof fn lemma_directions(secret: Seq<u8>, params: ObfsParams)
    ensures
        direction_context(true) != direction_context(false),
        fresh(secret, true, params).send_key == fresh(secret, false, params).recv_key,
        fresh(secret, true, params).recv_key == fresh(secret, false, params).send_key,
{
    reveal_strlit("sosistab3 frames from server to client");
    reveal_strlit("sosistab3 frames from client to server");
    assert("sosistab3 frames from server to client"@[22] != "sosistab3 frames from client to server"@[22]);
}

/// What a [`State`] stands for.
pub struct StateView {
    /// Key of the frames this side sends.
    pub send_key: Seq<u8>,
    /// Key of the frames this side receives.
    pub recv_key: Seq<u8>,
    /// How many frames this side has sent.
    pub sent: u64,
    /// How many frames this side has received.
    pub received: u64,
    /// The secret both sides derived their keys from.
    pub secret: Seq<u8>,
    /// How this session disguises its traffic.
    pub params: ObfsParams,
    /// Milliseconds the writer still owes as pauses.
    pub owed_delay: u64,
}

/// The view of a fresh session.
pub open spec fn fresh(secret: Seq<u8>, is_server: bool, params: ObfsParams) -> StateView {
    StateView {
        send_key: derived_key(direction_context(is_server), secret),
        recv_key: derived_key(direction_context(!is_server), secret),
        sent: 0,
        received: 0,
        secret,
        params,
        owed_delay: 0,
    }
}

/// The pause owed after `count` more frames, the first under `counter`.
pub open spec fn owed_after(v: StateView, count: int) -> u64 {
    if v.params.obfs_timing {
        let total = v.owed_delay + jitter_sum(v.send_key, v.sent, count);
        if total > u64::MAX {
            u64::MAX
        } else {
            total as u64
        }
    } else {
        v.owed_delay
    }
}

/// The engine of one side of one session.
pub struct State {
    send_key: [u8; 32],
    recv_key: [u8; 32],
    sent: u64,
    received: u64,
    secret: [u8; 32],
    params: ObfsParams,
    owed_delay: u64,
}

impl View for State {
    type V = StateView;

    closed spec fn view(&self) -> StateView {
        StateView {
            send_key: self.send_key@,
            recv_key: self.recv_key@,
            sent: self.sent,
            received: self.received,
            secret: self.secret@,
            params: self.params,
            owed_delay: self.owed_delay,
        }
    }
}

/// The size class of a payload of `n` bytes.
pub fn size_class_of(n: usize) -> (c: usize)
    ensures
        c == size_class(n as int),
{
    let mut c: usize = 64;
    while c < n && c < MAX_PAYLOAD
        invariant
            c == 64 || c == 128 || c == 256 || c == 512 || c == 1024 || c == 2048 || c == 4096
                || c == 8192,
            c == 64 || n > c / 2,
        decreases 8192 - c,
    {
        c = c * 2;
    }
    c
}

/// How many zero bytes follow a payload of `n` bytes.
pub fn padding_of(params: ObfsParams, n: usize) -> (pad: usize)
    ensures
        pad == padding(params, n as int),
        n <= 8192 ==> n + pad <= 8192,
{
    if params.obfs_lengths && n <= MAX_PAYLOAD {
        size_class_of(n) - n
    } else {
        0
    }
}

/// How many frames carry `n` bytes of plaintext.
pub fn frames_needed(n: usize) -> (count: usize)
    ensures
        count == frame_count(n as int),
{
    if n % MAX_PAYLOAD == 0 {
        n / MAX_PAYLOAD
    } else {
        n / MAX_PAYLOAD + 1
    }
}

/// The header that announces a payload of `payload_len` bytes and
/// `pad_len` bytes of padding.
pub fn write_header(payload_len: u16, pad_len: u16) -> (h: Vec<u8>)
    ensures
        h@ == header(payload_len as int, pad_len as int),
{
    let mut h: Vec<u8> = Vec::new();
    push_be16(&mut h, payload_len);
    push_be16(&mut h, pad_len);
    assert(h@ =~= header(payload_len as int, pad_len as int));
    h
}

/// Reads an opened header: the length of the payload and that of the
/// padding, where `h` has four bytes and a frame can hold what they
/// announce.
pub fn read_header(h: &[u8]) -> (r: Option<(usize, usize)>)
    ensures
        match r {
            Some((payload_len, pad_len)) => header_lengths(h@) == Some(
                (payload_len as int, pad_len as int),
            ),
            None => header_lengths(h@) is None,
        },
{
    if h.len() != 4 {
        return None;
    }
    let payload_len: usize = read_be16(h[0], h[1]) as usize;
    let pad_len: usize = read_be16(h[2], h[3]) as usize;
    if payload_len + pad_len > MAX_PAYLOAD {
        None
    } else {
        Some((payload_len, pad_len))
    }
}

/// Appends to `out` the frame that carries `payload`.
fn push_frame(key: &[u8; 32], counter: u64, params: ObfsParams, payload: &[u8], out: &mut Vec<u8>)
    requires
        payload@.len() <= 8192,
    ensures
        final(out)@ == old(out)@ + frame(key@, counter, params, payload@),
{
    let n: usize = payload.len();
    let pad: usize = padding_of(params, n);
    let head = write_header(n as u16, pad as u16);
    let mut body: Vec<u8> = Vec::new();
    append(&mut body, payload);
    let mut i: usize = 0;
    while i < pad
        invariant
            i <= pad,
            body@ == payload@ + zeros(i as int),
        decreases pad - i,
    {
        body.push(0u8);
        i += 1;
        assert(body@ =~= payload@ + zeros(i as int));
    }
    seal(key, counter, 0, head.as_slice(), out);
    seal(key, counter, 1, body.as_slice(), out);
    assert(out@ =~= old(out)@ + frame(key@, counter, params, payload@));
}

/// What [`read_frame`] found.
enum Step {
    Short,
    Bad(EngineError),
    Frame { wire: usize, payload: Vec<u8> },
}

impl Step {
    spec fn head(self) -> Head {
        match self {
            Step::Short => Head::Short,
            Step::Bad(e) => Head::Bad(e),
            Step::Frame { wire, payload } => Head::Frame { wire: wire as int, payload: payload@ },
        }
    }
}

/// Reads the front of `raw[at..]` as the frame under `counter`.
fn read_frame(key: &[u8; 32], counter: u64, raw: &[u8], at: usize) -> (r: Step)
    requires
        at <= raw@.len(),
    ensures
        r.head() == first_frame(key@, counter, raw@.subrange(at as int, raw@.len() as int)),
        r matches Step::Frame { wire, .. } ==> 36 <= wire <= raw@.len() - at && counter < u64::MAX,
{
    proof {
        reveal(first_frame);
    }
    let ghost rest = raw@.subrange(at as int, raw@.len() as int);
    let left: usize = raw.len() - at;
    if left < HEADER_WIRE {
        return Step::Short;
    }
    let sealed_head = vstd::slice::slice_subrange(raw, at, at + HEADER_WIRE);
    assert(sealed_head@ =~= rest.subrange(0, 20));
    let h = match open(key, counter, 0, sealed_head) {
        None => {
            return Step::Bad(EngineError::Forged);
        },
        Some(h) => h,
    };
    let (payload_len, pad_len) = match read_header(h.as_slice()) {
        None => {
            return Step::Bad(EngineError::Malformed);
        },
        Some(lengths) => lengths,
    };
    let wire: usize = FRAME_OVERHEAD + payload_len + pad_len;
    if left < wire {
        return Step::Short;
    }
    let sealed_body = vstd::slice::slice_subrange(raw, at + HEADER_WIRE, at + wire);
    assert(sealed_body@ =~= rest.subrange(20, wire as int));
    let body = match open(key, counter, 1, sealed_body) {
        None => {
            return Step::Bad(EngineError::Forged);
        },
        Some(body) => body,
    };
    proof {
        crate::aead::lemma_opened_len(key@, counter, 1, sealed_body@);
    }
    if counter == u64::MAX {
        return Step::Bad(EngineError::Exhausted);
    }
    let mut payload: Vec<u8> = Vec::new();
    append(&mut payload, vstd::slice::slice_subrange(body.as_slice(), 0, payload_len));
    assert(payload@ =~= body@.subrange(0, payload_len as int));
    Step::Frame { wire, payload }
}

/// The pause that the frame under `counter` adds.
fn jitter_of(key: &[u8; 32], counter: u64) -> (r: u64)
    ensures
        r == jitter(key@, counter),
        r < 16,
{
    let block = pad_block(key, counter, 2, 0);
    (block[0] % 16) as u64
}

/// No pause is negative, and none reaches 16 milliseconds.
pub proof fn lemma_jitter_sum_bounds(key: Seq<u8>, counter: u64, count: int)
    ensures
        0 <= jitter_sum(key, counter, count),
        count >= 0 ==> jitter_sum(key, counter, count) <= 15 * count,
    decreases count,
{
    if count > 0 {
        lemma_jitter_sum_bounds(key, (counter + 1) as u64, count - 1);
    }
}

impl State {
    /// The engine of a new session on `secret`. The two sides pass the same
    /// secret and opposite roles, and so send under each other's receiving
    /// key.
    pub fn new(secret: &[u8; 32], is_server: bool, params: ObfsParams) -> (r: State)
        ensures
            r@ == fresh(secret@, is_server, params),
    {
        State::restore(secret, is_server, params, 0, 0)
    }

    /// The engine of a session on `secret` in which this side has already
    /// sent `sent` frames and received `received`. A counter must never be
    /// set back: two frames under one counter give the key away.
    pub fn restore(
        secret: &[u8; 32],
        is_server: bool,
        params: ObfsParams,
        sent: u64,
        received: u64,
    ) -> (r: State)
        ensures
            r@ == (StateView { sent, received, ..fresh(secret@, is_server, params) }),
    {
        let (send_key, recv_key) = if is_server {
            (
                derive_key("sosistab3 frames from server to client", secret.as_slice()),
                derive_key("sosistab3 frames from client to server", secret.as_slice()),
            )
        } else {
            (
                derive_key("sosistab3 frames from client to server", secret.as_slice()),
                derive_key("sosistab3 frames from server to client", secret.as_slice()),
            )
        };
        State { send_key, recv_key, sent, received, secret: *secret, params, owed_delay: 0 }
    }

    /// The secret this session was built on.
    pub fn shared_secret(&self) -> (r: &[u8; 32])
        ensures
            r@ == self@.secret,
    {
        &self.secret
    }

    /// How this session disguises its traffic.
    pub fn params(&self) -> (r: ObfsParams)
        ensures
            r == self@.params,
    {
        self.params
    }

    /// Hands out the pause, in milliseconds, that the frames written since
    /// the last call have added up to, and sets it back to zero.
    pub fn take_delay(&mut self) -> (r: u64)
        ensures
            r == old(self)@.owed_delay,
            final(self)@ == (StateView { owed_delay: 0, ..old(self)@ }),
    {
        let r: u64 = self.owed_delay;
        self.owed_delay = 0;
        r
    }

    /// Appends to `out` the frames that carry `plain`, and counts them as
    /// sent. With timing obfuscation on, each frame adds its pause to what
    /// [`State::take_delay`] hands out. Where the frame counter cannot number
    /// them all, nothing is written and the session is over.
    pub fn encrypt(&mut self, plain: &[u8], out: &mut Vec<u8>) -> (r: Result<(), EngineError>)
        ensures
            r is Ok <==> old(self)@.sent + frame_count(plain@.len() as int) <= u64::MAX,
            r is Err ==> r == Err::<(), EngineError>(EngineError::Exhausted) && final(self)@ == old(
                self,
            )@ && final(out)@ == old(out)@,
            r is Ok ==> final(out)@ == old(out)@ + frames(
                old(self)@.send_key,
                old(self)@.sent,
                old(self)@.params,
                plain@,
            ),
            r is Ok ==> final(self)@.sent == old(self)@.sent + frame_count(plain@.len() as int),
            r is Ok ==> final(self)@ == (StateView {
                sent: final(self)@.sent,
                owed_delay: owed_after(old(self)@, frame_count(plain@.len() as int)),
                ..old(self)@
            }),
    {
        let n: usize = plain.len();
        let count: usize = frames_needed(n);
        if count as u64 > u64::MAX - self.sent {
            return Err(EngineError::Exhausted);
        }
        let ghost before = self@;
        let ghost target = old(out)@ + frames(before.send_key, before.sent, before.params, plain@);
        let ghost total_jitter = jitter_sum(before.send_key, before.sent, count as int);
        let mut at: usize = 0;
        assert(plain@.subrange(0, n as int) == plain@);
        while at < n
            invariant
                at <= n == plain@.len(),
                self@ == (StateView { sent: self.sent, owed_delay: self.owed_delay, ..before }),
                self.sent + frame_count(n - at) == before.sent + count <= u64::MAX,
                target == out@ + frames(
                    before.send_key,
                    self.sent,
                    before.params,
                    plain@.subrange(at as int, n as int),
                ),
                before.params.obfs_timing ==> (self.owed_delay == u64::MAX && before.owed_delay
                    + total_jitter >= u64::MAX) || self.owed_delay + jitter_sum(
                    before.send_key,
                    self.sent,
                    frame_count(n - at),
                ) == before.owed_delay + total_jitter,
                !before.params.obfs_timing ==> self.owed_delay == before.owed_delay,
            decreases n - at,
        {
            let take: usize = if n - at > MAX_PAYLOAD {
                MAX_PAYLOAD
            } else {
                n - at
            };
            let ghost rest = plain@.subrange(at as int, n as int);
            let chunk = vstd::slice::slice_subrange(plain, at, at + take);
            proof {
                assert(chunk@ =~= rest.subrange(0, take as int));
                assert(rest.subrange(take as int, rest.len() as int) =~= plain@.subrange(
                    at + take,
                    n as int,
                ));
                if take == rest.len() {
                    assert(chunk@ =~= rest);
                    assert(frames(
                        before.send_key,
                        (self.sent + 1) as u64,
                        before.params,
                        plain@.subrange(at + take, n as int),
                    ) =~= Seq::<u8>::empty());
                }
                lemma_jitter_sum_bounds(
                    before.send_key,
                    (self.sent + 1) as u64,
                    frame_count(n - at) - 1,
                );
            }
            push_frame(&self.send_key, self.sent, self.params, chunk, out);
            if self.params.obfs_timing {
                let j: u64 = jitter_of(&self.send_key, self.sent);
                self.owed_delay = if j > u64::MAX - self.owed_delay {
                    u64::MAX
                } else {
                    self.owed_delay + j
                };
            }
            self.sent = self.sent + 1;
            at = at + take;
        }
        proof {
            assert(plain@.subrange(n as int, n as int) =~= Seq::<u8>::empty());
            lemma_jitter_sum_bounds(before.send_key, before.sent, count as int);
        }
        Ok(())
    }

    /// Reads the whole frames at the front of `raw`, appends their payloads
    /// to `out` in order and counts them as received. Returns how many bytes
    /// of `raw` those frames took up: 0 where `raw` does not yet hold a whole
    /// frame, which is no error. Fails where what follows the frames read is
    /// no frame at all; the payloads of the frames before it are appended all
    /// the same, and the session is over.
    pub fn decrypt(&mut self, raw: &[u8], out: &mut Vec<u8>) -> (r: Result<usize, EngineError>)
        ensures
            final(out)@ == old(out)@ + parsed(old(self)@.recv_key, old(self)@.received, raw@).plain,
            final(self)@.received == old(self)@.received + parsed(
                old(self)@.recv_key,
                old(self)@.received,
                raw@,
            ).frames,
            final(self)@ == (StateView { received: final(self)@.received, ..old(self)@ }),
            match r {
                Ok(consumed) => parsed(old(self)@.recv_key, old(self)@.received, raw@).error is None
                    && consumed == parsed(old(self)@.recv_key, old(self)@.received, raw@).consumed,
                Err(e) => parsed(old(self)@.recv_key, old(self)@.received, raw@).error == Some(e),
            },
    {
        let ghost before = self@;
        let ghost whole = parsed(before.recv_key, before.received, raw@);
        let n: usize = raw.len();
        let mut at: usize = 0;
        assert(raw@.subrange(0, raw@.len() as int) == raw@);
        loop
            invariant
                at <= n == raw@.len(),
                before == old(self)@,
                self@ == (StateView { received: self.received, ..before }),
                whole == parsed(before.recv_key, before.received, raw@),
                ({
                    let rest = parsed(
                        before.recv_key,
                        self.received,
                        raw@.subrange(at as int, raw@.len() as int),
                    );
                    &&& whole.consumed == at + rest.consumed
                    &&& whole.frames == self.received - before.received + rest.frames
                    &&& old(out)@ + whole.plain == out@ + rest.plain
                    &&& whole.error == rest.error
                }),
            decreases raw@.len() - at,
        {
            let ghost tail = raw@.subrange(at as int, raw@.len() as int);
            let step = read_frame(&self.recv_key, self.received, raw, at);
            match step {
                Step::Short => {
                    assert(out@ + Seq::<u8>::empty() =~= out@);
                    return Ok(at);
                },
                Step::Bad(e) => {
                    assert(out@ + Seq::<u8>::empty() =~= out@);
                    return Err(e);
                },
                Step::Frame { wire, payload } => {
                    proof {
                        assert(tail.subrange(wire as int, tail.len() as int) =~= raw@.subrange(
                            at + wire,
                            raw@.len() as int,
                        ));
                        let rest = parsed(
                            before.recv_key,
                            (self.received + 1) as u64,
                            raw@.subrange(at + wire, raw@.len() as int),
                        );
                        assert((out@ + payload@) + rest.plain =~= out@ + (payload@ + rest.plain));
                    }
                    append(out, payload.as_slice());
                    self.received = self.received + 1;
                    at = at + wire;
                },
            }
        }
    }
}

} // verus!
