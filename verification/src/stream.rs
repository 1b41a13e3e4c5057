//! What holds of frames on the wire, whatever the keys: a frame reads back
//! as its payload, part of a frame reads as nothing yet, and bytes that
//! arrive in pieces read as they would have in one piece.

use vstd::prelude::*;
use crate::aead::{
    forgery, lemma_altered_seal, lemma_open_sealed, lemma_opened_len, lemma_sealed_parts, opened,
    sealed,
};
use crate::bytes::be16;
use crate::params::ObfsParams;
use crate::state::{
    first_frame, frame, frame_count, frame_len, frames, header, header_lengths, padding, parsed,
    size_class, wire_len, zeros, EngineError, Head, Parsed,
};

verus! {

/// A frame is as long as [`frame_len`] says, and starts with its sealed
/// header.
pub proof fn lemma_frame_shape(key: Seq<u8>, counter: u64, params: ObfsParams, payload: Seq<u8>)
    requires
        payload.len() <= 8192,
    ensures
        frame(key, counter, params, payload).len() == frame_len(params, payload.len() as int),
        36 <= frame_len(params, payload.len() as int) <= 36 + 8192,
        frame(key, counter, params, payload).subrange(0, 20) == sealed(
            key,
            counter,
            0,
            header(payload.len() as int, padding(params, payload.len() as int)),
        ),
        frame(key, counter, params, payload).subrange(
            20,
            frame_len(params, payload.len() as int),
        ) == sealed(
            key,
            counter,
            1,
            payload + zeros(padding(params, payload.len() as int)),
        ),
{
    let n = payload.len() as int;
    let pad = padding(params, n);
    let h = header(n, pad);
    let body = payload + zeros(pad);
    lemma_sealed_parts(key, counter, 0, h);
    lemma_sealed_parts(key, counter, 1, body);
    let f = frame(key, counter, params, payload);
    assert(f.subrange(0, 20) =~= sealed(key, counter, 0, h));
    assert(f.subrange(20, frame_len(params, n)) =~= sealed(key, counter, 1, body));
}

/// The header of a frame reads back as the two lengths it was made of.
pub proof fn lemma_header_round_trip(payload_len: int, pad_len: int)
    requires
        0 <= payload_len,
        0 <= pad_len,
        payload_len + pad_len <= 8192,
    ensures
        header(payload_len, pad_len).len() == 4,
        header_lengths(header(payload_len, pad_len)) == Some((payload_len, pad_len)),
{
    let h = header(payload_len, pad_len);
    assert(h[0] == be16(payload_len as u16)[0]);
    assert(h[1] == be16(payload_len as u16)[1]);
    assert(h[2] == be16(pad_len as u16)[0]);
    assert(h[3] == be16(pad_len as u16)[1]);
}

/// A frame, with anything behind it, reads as that frame.
pub proof fn lemma_frame_reads_back(
    key: Seq<u8>,
    counter: u64,
    params: ObfsParams,
    payload: Seq<u8>,
    rest: Seq<u8>,
)
    requires
        payload.len() <= 8192,
        counter < u64::MAX,
    ensures
        first_frame(key, counter, frame(key, counter, params, payload) + rest) == (Head::Frame {
            wire: frame_len(params, payload.len() as int),
            payload,
        }),
{
    reveal(first_frame);
    let n = payload.len() as int;
    let pad = padding(params, n);
    let h = header(n, pad);
    let body = payload + zeros(pad);
    let f = frame(key, counter, params, payload);
    let raw = f + rest;
    let wire = frame_len(params, n);
    lemma_frame_shape(key, counter, params, payload);
    lemma_header_round_trip(n, pad);
    lemma_open_sealed(key, counter, 0, h);
    lemma_open_sealed(key, counter, 1, body);
    assert(raw.subrange(0, 20) =~= f.subrange(0, 20));
    assert(raw.subrange(20, wire) =~= f.subrange(20, wire));
    assert(body.subrange(0, n) =~= payload);
}

/// A frame cut short reads as nothing yet: no frame, and no error.
pub proof fn lemma_cut_frame_is_short(
    key: Seq<u8>,
    counter: u64,
    params: ObfsParams,
    payload: Seq<u8>,
    k: int,
)
    requires
        payload.len() <= 8192,
        0 <= k < frame_len(params, payload.len() as int),
    ensures
        first_frame(key, counter, frame(key, counter, params, payload).subrange(0, k))
            == Head::Short,
        parsed(key, counter, frame(key, counter, params, payload).subrange(0, k)) == (Parsed {
            consumed: 0,
            frames: 0,
            plain: Seq::empty(),
            error: None,
        }),
{
    reveal(first_frame);
    let n = payload.len() as int;
    let pad = padding(params, n);
    let h = header(n, pad);
    let f = frame(key, counter, params, payload);
    let raw = f.subrange(0, k);
    lemma_frame_shape(key, counter, params, payload);
    lemma_header_round_trip(n, pad);
    lemma_open_sealed(key, counter, 0, h);
    if k >= 20 {
        assert(raw.subrange(0, 20) =~= f.subrange(0, 20));
    }
}

/// Whatever the front of `raw` reads as, once it is a frame or an error, it
/// reads the same with more bytes behind it.
pub proof fn lemma_first_frame_settled(key: Seq<u8>, counter: u64, raw: Seq<u8>, extra: Seq<u8>)
    requires
        first_frame(key, counter, raw) != Head::Short,
    ensures
        first_frame(key, counter, raw + extra) == first_frame(key, counter, raw),
{
    reveal(first_frame);
    let more = raw + extra;
    assert(more.subrange(0, 20) =~= raw.subrange(0, 20));
    match opened(key, counter, 0, raw.subrange(0, 20)) {
        None => {},
        Some(h) => match header_lengths(h) {
            None => {},
            Some((payload_len, pad_len)) => {
                let wire = 36 + payload_len + pad_len;
                assert(more.subrange(20, wire) =~= raw.subrange(20, wire));
            },
        },
    }
}

/// What a frame at the front of `raw` says of itself.
pub proof fn lemma_first_frame_bounds(key: Seq<u8>, counter: u64, raw: Seq<u8>)
    ensures
        first_frame(key, counter, raw) matches Head::Frame { wire, payload } ==> 36 <= wire
            <= raw.len() && payload.len() + 36 <= wire && counter < u64::MAX,
{
    reveal(first_frame);
    if raw.len() >= 20 {
        lemma_opened_len(key, counter, 0, raw.subrange(0, 20));
        match opened(key, counter, 0, raw.subrange(0, 20)) {
            None => {},
            Some(h) => match header_lengths(h) {
                None => {},
                Some((payload_len, pad_len)) => {
                    let wire = 36 + payload_len + pad_len;
                    if raw.len() >= wire {
                        lemma_opened_len(key, counter, 1, raw.subrange(20, wire));
                    }
                },
            },
        }
    }
}

/// Reading nothing.
pub open spec fn nothing(error: Option<EngineError>) -> Parsed {
    Parsed { consumed: 0, frames: 0, plain: Seq::empty(), error }
}

/// What reading `p` and then, from where `p` stopped, `r` comes to.
pub open spec fn joined(p: Parsed, r: Parsed) -> Parsed {
    Parsed {
        consumed: p.consumed + r.consumed,
        frames: p.frames + r.frames,
        plain: p.plain + r.plain,
        error: r.error,
    }
}

/// Reading never takes more bytes than there are, nor more frames than the
/// counter can number, nor gives more payload than it took bytes.
pub proof fn lemma_parsed_bounds(key: Seq<u8>, counter: u64, raw: Seq<u8>)
    ensures
        0 <= parsed(key, counter, raw).consumed <= raw.len(),
        0 <= parsed(key, counter, raw).frames,
        counter + parsed(key, counter, raw).frames <= u64::MAX,
        parsed(key, counter, raw).plain.len() + 36 * parsed(key, counter, raw).frames <= parsed(
            key,
            counter,
            raw,
        ).consumed,
    decreases raw.len(),
{
    lemma_first_frame_bounds(key, counter, raw);
    match first_frame(key, counter, raw) {
        Head::Frame { wire, payload } => {
            lemma_parsed_bounds(key, (counter + 1) as u64, raw.subrange(wire, raw.len() as int));
        },
        _ => {},
    }
}

/// Where reading stopped, reading again takes nothing more and stops for the
/// same reason.
pub proof fn lemma_parsed_again(key: Seq<u8>, counter: u64, raw: Seq<u8>)
    ensures
        parsed(
            key,
            (counter + parsed(key, counter, raw).frames) as u64,
            raw.subrange(parsed(key, counter, raw).consumed, raw.len() as int),
        ) == nothing(parsed(key, counter, raw).error),
    decreases raw.len(),
{
    lemma_first_frame_bounds(key, counter, raw);
    match first_frame(key, counter, raw) {
        Head::Frame { wire, payload } => {
            let tail = raw.subrange(wire, raw.len() as int);
            lemma_parsed_again(key, (counter + 1) as u64, tail);
            lemma_parsed_bounds(key, (counter + 1) as u64, tail);
            let q = parsed(key, (counter + 1) as u64, tail);
            assert(tail.subrange(q.consumed, tail.len() as int) =~= raw.subrange(
                wire + q.consumed,
                raw.len() as int,
            ));
        },
        _ => {
            assert(raw.subrange(0, raw.len() as int) =~= raw);
        },
    }
}

/// Bytes that arrive in two pieces read as they would in one: reading `raw`
/// and then, once `extra` has arrived, what `raw` left over followed by
/// `extra`, comes to reading `raw + extra`. An error found in `raw` stays
/// whatever follows.
pub proof fn lemma_parsed_more(key: Seq<u8>, counter: u64, raw: Seq<u8>, extra: Seq<u8>)
    ensures
        parsed(key, counter, raw).error is Some ==> parsed(key, counter, raw + extra) == parsed(
            key,
            counter,
            raw,
        ),
        parsed(key, counter, raw).error is None ==> parsed(key, counter, raw + extra) == joined(
            parsed(key, counter, raw),
            parsed(
                key,
                (counter + parsed(key, counter, raw).frames) as u64,
                raw.subrange(parsed(key, counter, raw).consumed, raw.len() as int) + extra,
            ),
        ),
    decreases raw.len(),
{
    lemma_first_frame_bounds(key, counter, raw);
    let more = raw + extra;
    match first_frame(key, counter, raw) {
        Head::Short => {
            assert(raw.subrange(0, raw.len() as int) =~= raw);
            let r = parsed(key, counter, more);
            assert(Seq::<u8>::empty() + r.plain =~= r.plain);
        },
        Head::Bad(e) => {
            lemma_first_frame_settled(key, counter, raw, extra);
        },
        Head::Frame { wire, payload } => {
            lemma_first_frame_settled(key, counter, raw, extra);
            let next = (counter + 1) as u64;
            let tail = raw.subrange(wire, raw.len() as int);
            assert(more.subrange(wire, more.len() as int) =~= tail + extra);
            lemma_parsed_more(key, next, tail, extra);
            lemma_parsed_bounds(key, next, tail);
            let q = parsed(key, next, tail);
            if q.error is None {
                let left = tail.subrange(q.consumed, tail.len() as int) + extra;
                assert(left =~= raw.subrange(wire + q.consumed, raw.len() as int) + extra);
                let r = parsed(key, (next + q.frames) as u64, left);
                assert(payload + (q.plain + r.plain) =~= (payload + q.plain) + r.plain);
            }
        },
    }
}

/// The frames of a plaintext are as long as [`wire_len`] says, and with
/// anything behind them they read back as that plaintext, followed by what
/// the rest reads as.
pub proof fn lemma_frames_read_back(
    key: Seq<u8>,
    counter: u64,
    params: ObfsParams,
    plain: Seq<u8>,
    rest: Seq<u8>,
)
    requires
        counter + frame_count(plain.len() as int) <= u64::MAX,
    ensures
        frames(key, counter, params, plain).len() == wire_len(params, plain.len() as int),
        parsed(key, counter, frames(key, counter, params, plain) + rest) == joined(
            Parsed {
                consumed: wire_len(params, plain.len() as int),
                frames: frame_count(plain.len() as int),
                plain,
                error: None,
            },
            parsed(key, (counter + frame_count(plain.len() as int)) as u64, rest),
        ),
    decreases plain.len(),
{
    let n = plain.len() as int;
    let wire = frames(key, counter, params, plain);
    let next = (counter + 1) as u64;
    if n == 0 {
        assert(wire + rest =~= rest);
        let r = parsed(key, counter, rest);
        assert(plain + r.plain =~= r.plain);
    } else if n <= 8192 {
        lemma_frame_shape(key, counter, params, plain);
        lemma_frame_reads_back(key, counter, params, plain, rest);
        let raw = wire + rest;
        assert(raw.subrange(frame_len(params, n), raw.len() as int) =~= rest);
    } else {
        let first = plain.subrange(0, 8192);
        let tail = plain.subrange(8192, n);
        let f = frame(key, counter, params, first);
        let others = frames(key, next, params, tail);
        lemma_frame_shape(key, counter, params, first);
        lemma_frame_reads_back(key, counter, params, first, others + rest);
        lemma_frames_read_back(key, next, params, tail, rest);
        let raw = wire + rest;
        assert(raw =~= f + (others + rest));
        assert(raw.subrange(frame_len(params, 8192), raw.len() as int) =~= others + rest);
        let r = parsed(key, (counter + frame_count(n)) as u64, rest);
        assert(first + (tail + r.plain) =~= plain + r.plain);
    }
}

/// The receiving side of a session, as far as reading goes.
pub struct Receiver {
    /// Key of the frames received.
    pub key: Seq<u8>,
    /// How many frames were read.
    pub counter: u64,
    /// Bytes that arrived and are not yet a whole frame.
    pub pending: Seq<u8>,
    /// The payloads read, in order.
    pub plain: Seq<u8>,
    /// Why the session is over, if it is.
    pub error: Option<EngineError>,
}

/// The receiver after `chunk` has arrived: whole frames are read off the
/// pending bytes followed by `chunk`, and what is left stays pending. After
/// an error nothing is read any more.
pub open spec fn absorb(rx: Receiver, chunk: Seq<u8>) -> Receiver {
    let raw = rx.pending + chunk;
    let p = parsed(rx.key, rx.counter, raw);
    if rx.error is Some {
        rx
    } else {
        Receiver {
            key: rx.key,
            counter: (rx.counter + p.frames) as u64,
            pending: if p.error is Some {
                Seq::empty()
            } else {
                raw.subrange(p.consumed, raw.len() as int)
            },
            plain: rx.plain + p.plain,
            error: p.error,
        }
    }
}

/// The receiver after the chunks have arrived one by one.
pub open spec fn absorb_all(rx: Receiver, chunks: Seq<Seq<u8>>) -> Receiver
    decreases chunks.len(),
{
    if chunks.len() == 0 {
        rx
    } else {
        absorb_all(absorb(rx, chunks[0]), chunks.drop_first())
    }
}

/// The chunks, one after the other.
pub open spec fn concat(chunks: Seq<Seq<u8>>) -> Seq<u8>
    decreases chunks.len(),
{
    if chunks.len() == 0 {
        Seq::empty()
    } else {
        chunks[0] + concat(chunks.drop_first())
    }
}

/// A receiver whose pending bytes hold no whole frame: what every receiver
/// is between two arrivals.
pub open spec fn settled(rx: Receiver) -> bool {
    rx.error is None ==> parsed(rx.key, rx.counter, rx.pending) == nothing(None)
}

/// A receiver is settled after every arrival.
pub proof fn lemma_absorb_settles(rx: Receiver, chunk: Seq<u8>)
    requires
        settled(rx),
    ensures
        settled(absorb(rx, chunk)),
{
    lemma_parsed_again(rx.key, rx.counter, rx.pending + chunk);
}

/// How the bytes of a stream are cut into chunks makes no difference to what
/// is read from them.
pub proof fn lemma_pieces_read_as_one(rx: Receiver, chunks: Seq<Seq<u8>>)
    requires
        settled(rx),
    ensures
        absorb_all(rx, chunks) == absorb(rx, concat(chunks)),
    decreases chunks.len(),
{
    if rx.error is Some {
        if chunks.len() > 0 {
            lemma_pieces_read_as_one(rx, chunks.drop_first());
        }
    } else if chunks.len() == 0 {
        assert(rx.pending + concat(chunks) =~= rx.pending);
        assert(rx.pending.subrange(0, rx.pending.len() as int) =~= rx.pending);
        assert(rx.plain + Seq::<u8>::empty() =~= rx.plain);
    } else {
        let first = chunks[0];
        let others = concat(chunks.drop_first());
        let mid = absorb(rx, first);
        lemma_absorb_settles(rx, first);
        lemma_pieces_read_as_one(mid, chunks.drop_first());
        let raw = rx.pending + first;
        let p = parsed(rx.key, rx.counter, raw);
        lemma_parsed_more(rx.key, rx.counter, raw, others);
        lemma_parsed_bounds(rx.key, rx.counter, raw);
        assert(raw + others =~= rx.pending + concat(chunks));
        if p.error is None {
            let left = raw.subrange(p.consumed, raw.len() as int);
            let r = parsed(rx.key, mid.counter, left + others);
            lemma_parsed_bounds(rx.key, mid.counter, left + others);
            assert((rx.plain + p.plain) + r.plain =~= rx.plain + (p.plain + r.plain));
            if r.error is None {
                assert((left + others).subrange(r.consumed, (left + others).len() as int) =~= (raw
                    + others).subrange(p.consumed + r.consumed, (raw + others).len() as int));
            }
        }
    }
}

/// What one side encrypts, the other reads back, however the bytes are cut
/// into chunks on the way: all of the plaintext, behind what was read
/// already, with nothing left pending and no error.
pub proof fn lemma_round_trip(
    key: Seq<u8>,
    counter: u64,
    params: ObfsParams,
    already: Seq<u8>,
    plain: Seq<u8>,
    chunks: Seq<Seq<u8>>,
)
    requires
        counter + frame_count(plain.len() as int) <= u64::MAX,
        concat(chunks) == frames(key, counter, params, plain),
    ensures
        absorb_all(
            Receiver { key, counter, pending: Seq::empty(), plain: already, error: None },
            chunks,
        ) == (Receiver {
            key,
            counter: (counter + frame_count(plain.len() as int)) as u64,
            pending: Seq::empty(),
            plain: already + plain,
            error: None,
        }),
{
    reveal(first_frame);
    let rx = Receiver { key, counter, pending: Seq::empty(), plain: already, error: None };
    let wire = frames(key, counter, params, plain);
    lemma_pieces_read_as_one(rx, chunks);
    lemma_frames_read_back(key, counter, params, plain, Seq::empty());
    assert(rx.pending + wire =~= wire);
    assert(wire + Seq::<u8>::empty() =~= wire);
    assert(plain + Seq::<u8>::empty() =~= plain);
    assert(wire.subrange(wire.len() as int, wire.len() as int) =~= Seq::<u8>::empty());
}

/// A frame in which bytes were changed is reported as forged, and nothing of
/// it is read, unless its header or its body is a forgery.
pub proof fn lemma_tampering_is_caught(
    key: Seq<u8>,
    counter: u64,
    params: ObfsParams,
    payload: Seq<u8>,
    altered: Seq<u8>,
)
    requires
        payload.len() <= 8192,
        altered.len() == frame(key, counter, params, payload).len(),
        altered != frame(key, counter, params, payload),
    ensures
        parsed(key, counter, altered) == nothing(Some(EngineError::Forged)) || forgery(
            key,
            counter,
            0,
            frame(key, counter, params, payload).subrange(0, 20),
            altered.subrange(0, 20),
        ) || forgery(
            key,
            counter,
            1,
            frame(key, counter, params, payload).subrange(20, altered.len() as int),
            altered.subrange(20, altered.len() as int),
        ),
{
    reveal(first_frame);
    let n = payload.len() as int;
    let pad = padding(params, n);
    let h = header(n, pad);
    let body = payload + zeros(pad);
    let f = frame(key, counter, params, payload);
    let wire = frame_len(params, n);
    lemma_frame_shape(key, counter, params, payload);
    lemma_header_round_trip(n, pad);
    lemma_open_sealed(key, counter, 0, h);
    if altered.subrange(0, 20) != f.subrange(0, 20) {
        lemma_altered_seal(key, counter, 0, h, altered.subrange(0, 20));
    } else {
        if altered.subrange(20, wire) == f.subrange(20, wire) {
            assert(altered =~= altered.subrange(0, 20) + altered.subrange(20, wire));
            assert(f =~= f.subrange(0, 20) + f.subrange(20, wire));
        }
        lemma_altered_seal(key, counter, 1, body, altered.subrange(20, wire));
    }
}

/// With length obfuscation on, a frame is as long as the size class of its
/// payload and no other thing makes it: there are eight lengths a frame can
/// have, and payloads of one class give frames of one length.
pub proof fn lemma_frame_len_by_class(params: ObfsParams, a: int, b: int)
    requires
        params.obfs_lengths,
        0 <= a <= 8192,
        0 <= b <= 8192,
    ensures
        frame_len(params, a) == 36 + size_class(a),
        size_class(a) == 64 || size_class(a) == 128 || size_class(a) == 256 || size_class(a)
            == 512 || size_class(a) == 1024 || size_class(a) == 2048 || size_class(a) == 4096
            || size_class(a) == 8192,
        a <= size_class(a),
        size_class(a) == size_class(b) ==> frame_len(params, a) == frame_len(params, b),
{
}

/// The payload of the last of the frames that carry `n` bytes of plaintext.
pub open spec fn last_payload(n: int) -> int {
    n - 8192 * (frame_count(n) - 1)
}

/// With length obfuscation on, the bytes that carry a plaintext are as many
/// as the number of frames and the size class of the last payload make them.
pub proof fn lemma_wire_len_by_class(params: ObfsParams, n: int)
    requires
        params.obfs_lengths,
        n > 0,
    ensures
        0 < last_payload(n) <= 8192,
        wire_len(params, n) == (frame_count(n) - 1) * 8228 + 36 + size_class(last_payload(n)),
    decreases n,
{
    if n > 8192 {
        lemma_wire_len_by_class(params, n - 8192);
    }
}

/// With length obfuscation on, two plaintexts that take the same number of
/// frames and whose last payloads are of one size class cannot be told apart
/// by the length of what is sent for them, whatever the keys and counters.
pub proof fn lemma_lengths_hidden(
    params: ObfsParams,
    key_a: Seq<u8>,
    counter_a: u64,
    a: Seq<u8>,
    key_b: Seq<u8>,
    counter_b: u64,
    b: Seq<u8>,
)
    requires
        params.obfs_lengths,
        a.len() > 0,
        b.len() > 0,
        frame_count(a.len() as int) == frame_count(b.len() as int),
        size_class(last_payload(a.len() as int)) == size_class(last_payload(b.len() as int)),
    ensures
        frames(key_a, counter_a, params, a).len() == frames(key_b, counter_b, params, b).len(),
{
    lemma_wire_len_by_class(params, a.len() as int);
    lemma_wire_len_by_class(params, b.len() as int);
    lemma_frames_len(key_a, counter_a, params, a);
    lemma_frames_len(key_b, counter_b, params, b);
}

/// The frames of a plaintext are as long as [`wire_len`] says.
pub proof fn lemma_frames_len(key: Seq<u8>, counter: u64, params: ObfsParams, plain: Seq<u8>)
    ensures
        frames(key, counter, params, plain).len() == wire_len(params, plain.len() as int),
    decreases plain.len(),
{
    let n = plain.len() as int;
    if n == 0 {
    } else if n <= 8192 {
        lemma_frame_shape(key, counter, params, plain);
    } else {
        lemma_frame_shape(key, counter, params, plain.subrange(0, 8192));
        lemma_frames_len(key, (counter + 1) as u64, params, plain.subrange(8192, n));
    }
}

} // verus!
