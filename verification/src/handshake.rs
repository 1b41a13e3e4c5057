//! The handshake: two messages of 64 bytes each, after which both sides hold
//! the engine of a new session.
//!
//! The client sends a nonce and, under its handshake key, the digest of that
//! nonce and of the minute it is sent in. The server answers a hello whose
//! digest fits the minute before, this one or the next, and whose nonce it
//! has not seen of late, with a nonce of its own and, under its handshake
//! key, the digest of both nonces. The session secret is the digest of both
//! nonces under the master key. To anyone without the cookie both messages
//! are random bytes, and a hello that is not answered is not answered at all:
//! whoever drives the exchange sends nothing on failure.
//!
//! The secret of one session gives away neither the cookie nor the secret of
//! another, as far as the digest cannot be inverted. Whoever learns the
//! cookie can read every session recorded under it.

use vstd::prelude::*;
use crate::bytes::{append, be64, push_be64, same_bytes, take32};
use crate::cookie::{random_key, role_context, Cookie};
use crate::dedup::{live, Dedup, DedupView, lemma_second_is_replay};
use crate::kdf::{derived_key, mac, mac_of};
use crate::params::ObfsParams;
use crate::state::{fresh, State};

verus! {

/// Length in bytes of a nonce.
pub const NONCE_LEN: usize = 32;

/// Length in bytes of either message.
pub const MESSAGE_LEN: usize = 64;

/// Length in seconds of the span of time that a hello is bound to.
pub const EPOCH_SECS: u64 = 60;

/// The least horizon, in seconds, of a store that is to catch every replay
/// the clock does not: a hello is answered during three epochs at most.
pub const REPLAY_HORIZON: u64 = 180;

/// The handshake failed. Why is not said: a wrong cookie, a malformed
/// message and a replay all look the same.
#[derive(Clone, Copy, Debug, PartialEq, Eq, Structural)]
pub struct HandshakeFailed;

/// The epoch that the time `now`, in seconds, falls in.
pub open spec fn epoch_of(now: u64) -> u64 {
    now / 60
}

/// The digest that a hello carries.
pub open spec fn hello_tag(client_key: Seq<u8>, nonce: Seq<u8>, epoch: u64) -> Seq<u8> {
    mac(client_key, seq![0x10u8] + nonce + be64(epoch))
}

/// The hello of a client with the nonce `nonce` in the epoch `epoch`.
pub open spec fn hello_of(client_key: Seq<u8>, nonce: Seq<u8>, epoch: u64) -> Seq<u8> {
    nonce + hello_tag(client_key, nonce, epoch)
}

/// The digest that a reply carries.
pub open spec fn reply_tag(server_key: Seq<u8>, nonce: Seq<u8>, server_nonce: Seq<u8>) -> Seq<u8> {
    mac(server_key, seq![0x11u8] + nonce + server_nonce)
}

/// The reply of a server with the nonce `server_nonce` to the hello with the
/// nonce `nonce`.
pub open spec fn reply_of(server_key: Seq<u8>, nonce: Seq<u8>, server_nonce: Seq<u8>) -> Seq<u8> {
    server_nonce + reply_tag(server_key, nonce, server_nonce)
}

/// The secret of the session that the two nonces open under the master key.
pub open spec fn session_secret(master: Seq<u8>, nonce: Seq<u8>, server_nonce: Seq<u8>) -> Seq<u8> {
    mac(master, seq![0x12u8] + nonce + server_nonce)
}

/// The first half of a message: its nonce.
pub open spec fn nonce_part(message: Seq<u8>) -> Seq<u8> {
    message.subrange(0, 32)
}

/// The second half of a message: its digest.
pub open spec fn digest_part(message: Seq<u8>) -> Seq<u8> {
    message.subrange(32, 64)
}

/// Whether `hello` is a hello under `client_key` that a server answers at
/// `now`: it has the length of one, and its digest is that of its nonce and
/// of the epoch before, this one or the next.
pub open spec fn genuine_hello(client_key: Seq<u8>, hello: Seq<u8>, now: u64) -> bool {
    let e = epoch_of(now);
    let nonce = nonce_part(hello);
    &&& hello.len() == 64
    &&& (digest_part(hello) == hello_tag(client_key, nonce, e) || (e > 0 && digest_part(hello)
        == hello_tag(client_key, nonce, (e - 1) as u64)) || digest_part(hello) == hello_tag(
        client_key,
        nonce,
        (e + 1) as u64,
    ))
}

/// Whether `reply` is a reply under `server_key` to the hello with the nonce
/// `nonce`.
pub open spec fn genuine_reply(server_key: Seq<u8>, nonce: Seq<u8>, reply: Seq<u8>) -> bool {
    &&& reply.len() == 64
    &&& digest_part(reply) == reply_tag(server_key, nonce, nonce_part(reply))
}

/// Whether a server with the store `store` answers `hello` at `now`: the
/// hello is genuine and its nonce is no replay.
pub open spec fn answered(client_key: Seq<u8>, store: DedupView, hello: Seq<u8>, now: u64) -> bool {
    genuine_hello(client_key, hello, now) && !store.replayed(nonce_part(hello), now)
}

/// The handshake key of the client under the master key `master`.
pub open spec fn client_key_of(master: Seq<u8>) -> Seq<u8> {
    derived_key(role_context(false), master)
}

/// The handshake key of the server under the master key `master`.
pub open spec fn server_key_of(master: Seq<u8>) -> Seq<u8> {
    derived_key(role_context(true), master)
}

/// Two sides with one cookie, whose clocks are in the same epoch or in
/// neighbouring ones, complete the handshake: the server answers the
/// client's hello unless it is a replay, the client accepts the reply, and
/// the two engines hold the same secret and send under each other's
/// receiving key.
pub proof fn lemma_same_cookie_agrees(
    master: Seq<u8>,
    params: ObfsParams,
    nonce: Seq<u8>,
    server_nonce: Seq<u8>,
    client_now: u64,
    server_now: u64,
)
    requires
        nonce.len() == 32,
        server_nonce.len() == 32,
        epoch_of(server_now) - 1 <= epoch_of(client_now) <= epoch_of(server_now) + 1,
    ensures
        genuine_hello(
            client_key_of(master),
            hello_of(client_key_of(master), nonce, epoch_of(client_now)),
            server_now,
        ),
        nonce_part(hello_of(client_key_of(master), nonce, epoch_of(client_now))) == nonce,
        genuine_reply(
            server_key_of(master),
            nonce,
            reply_of(server_key_of(master), nonce, server_nonce),
        ),
        nonce_part(reply_of(server_key_of(master), nonce, server_nonce)) == server_nonce,
        fresh(session_secret(master, nonce, server_nonce), true, params).send_key == fresh(
            session_secret(master, nonce, server_nonce),
            false,
            params,
        ).recv_key,
        fresh(session_secret(master, nonce, server_nonce), true, params).recv_key == fresh(
            session_secret(master, nonce, server_nonce),
            false,
            params,
        ).send_key,
{
    let ck = client_key_of(master);
    let sk = server_key_of(master);
    let hello = hello_of(ck, nonce, epoch_of(client_now));
    let reply = reply_of(sk, nonce, server_nonce);
    assert(nonce_part(hello) =~= nonce);
    assert(digest_part(hello) =~= hello_tag(ck, nonce, epoch_of(client_now)));
    assert(nonce_part(reply) =~= server_nonce);
    assert(digest_part(reply) =~= reply_tag(sk, nonce, server_nonce));
}

/// A hello that was answered is not answered again before the horizon of
/// the store has passed.
pub proof fn lemma_replay_not_answered(
    client_key: Seq<u8>,
    store: DedupView,
    hello: Seq<u8>,
    first: u64,
    second: u64,
)
    requires
        store.wf(),
        answered(client_key, store, hello, first),
        live(first, second, store.horizon),
    ensures
        !answered(client_key, store.presented(nonce_part(hello), first), hello, second),
{
    lemma_second_is_replay(store, nonce_part(hello), first, second);
}

/// The digest of a hello.
fn hello_tag_of(client_key: &[u8; 32], nonce: &[u8], epoch: u64) -> (r: [u8; 32])
    ensures
        r@ == hello_tag(client_key@, nonce@, epoch),
{
    let mut label: Vec<u8> = Vec::new();
    label.push(0x10u8);
    append(&mut label, nonce);
    push_be64(&mut label, epoch);
    assert(label@ =~= seq![0x10u8] + nonce@ + be64(epoch));
    mac_of(client_key, label.as_slice())
}

/// The digest of the two nonces under `key`, in the domain `domain`.
fn nonces_tag_of(key: &[u8; 32], domain: u8, nonce: &[u8], server_nonce: &[u8]) -> (r: [u8; 32])
    ensures
        r@ == mac(key@, seq![domain] + nonce@ + server_nonce@),
{
    let mut label: Vec<u8> = Vec::new();
    label.push(domain);
    append(&mut label, nonce);
    append(&mut label, server_nonce);
    assert(label@ =~= seq![domain] + nonce@ + server_nonce@);
    mac_of(key, label.as_slice())
}

/// The hello of a client that holds `cookie` and has drawn `nonce`, at the
/// time `now` in seconds.
pub fn client_hello(cookie: &Cookie, nonce: &[u8; 32], now: u64) -> (hello: Vec<u8>)
    ensures
        hello@ == hello_of(client_key_of(cookie@.key), nonce@, epoch_of(now)),
        hello@.len() == 64,
{
    let key = cookie.derive_key(false);
    let tag = hello_tag_of(&key, nonce.as_slice(), now / EPOCH_SECS);
    let mut hello: Vec<u8> = Vec::new();
    append(&mut hello, nonce.as_slice());
    append(&mut hello, tag.as_slice());
    assert(hello@ =~= hello_of(client_key_of(cookie@.key), nonce@, epoch_of(now)));
    hello
}

/// Draws a nonce and makes the hello of a client that holds `cookie`, at the
/// time `now` in seconds. The nonce comes back with the hello: the client
/// needs it to read the reply.
pub fn dial(cookie: &Cookie, now: u64) -> (r: (Vec<u8>, [u8; 32]))
    ensures
        r.0@ == hello_of(client_key_of(cookie@.key), r.1@, epoch_of(now)),
        r.0@.len() == 64,
{
    let nonce = random_key();
    let hello = client_hello(cookie, &nonce, now);
    (hello, nonce)
}

/// Reads the server's reply to the hello with the nonce `nonce`: the engine
/// of the client's side of the session where the reply is genuine, a failure
/// otherwise.
pub fn client_finish(cookie: &Cookie, nonce: &[u8; 32], reply: &[u8]) -> (r: Result<
    State,
    HandshakeFailed,
>)
    ensures
        r is Ok <==> genuine_reply(server_key_of(cookie@.key), nonce@, reply@),
        r matches Ok(state) ==> state@ == fresh(
            session_secret(cookie@.key, nonce@, nonce_part(reply@)),
            false,
            cookie@.params,
        ),
{
    if reply.len() != MESSAGE_LEN {
        return Err(HandshakeFailed);
    }
    let server_nonce = vstd::slice::slice_subrange(reply, 0, NONCE_LEN);
    let claimed = vstd::slice::slice_subrange(reply, NONCE_LEN, MESSAGE_LEN);
    let key = cookie.derive_key(true);
    let tag = nonces_tag_of(&key, 0x11u8, nonce.as_slice(), server_nonce);
    if !same_bytes(tag.as_slice(), claimed) {
        return Err(HandshakeFailed);
    }
    let secret = nonces_tag_of(cookie.key(), 0x12u8, nonce.as_slice(), server_nonce);
    Ok(State::new(&secret, false, cookie.params()))
}

/// Whether `hello`, of 64 bytes, carries the digest of its nonce and of one
/// of the three epochs around `now`. All three are tried whatever the
/// outcome of the first.
fn hello_fits(key: &[u8; 32], hello: &[u8], now: u64) -> (r: bool)
    requires
        hello@.len() == 64,
    ensures
        r == genuine_hello(key@, hello@, now),
{
    let nonce = vstd::slice::slice_subrange(hello, 0, NONCE_LEN);
    let claimed = vstd::slice::slice_subrange(hello, NONCE_LEN, MESSAGE_LEN);
    let e: u64 = now / EPOCH_SECS;
    let this = hello_tag_of(key, nonce, e);
    let next = hello_tag_of(key, nonce, e + 1);
    let fits_this = same_bytes(this.as_slice(), claimed);
    let fits_next = same_bytes(next.as_slice(), claimed);
    let fits_last = if e > 0 {
        let last = hello_tag_of(key, nonce, e - 1);
        same_bytes(last.as_slice(), claimed)
    } else {
        false
    };
    fits_this || fits_next || fits_last
}

/// Answers `hello` at the time `now`, in seconds, as a server that holds
/// `cookie`, keeps the nonces it has seen in `store` and has drawn
/// `server_nonce`: the reply to send and the engine of the server's side of
/// the session, where the hello is genuine and no replay. The nonce of every
/// genuine hello is presented to the store; any other hello leaves the store
/// as it is.
pub fn server_accept(
    cookie: &Cookie,
    store: &mut Dedup,
    hello: &[u8],
    server_nonce: &[u8; 32],
    now: u64,
) -> (r: Result<(Vec<u8>, State), HandshakeFailed>)
    ensures
        old(store)@.wf(),
        r is Ok <==> answered(client_key_of(cookie@.key), old(store)@, hello@, now),
        final(store)@.wf(),
        final(store)@ == if genuine_hello(client_key_of(cookie@.key), hello@, now) {
            old(store)@.presented(nonce_part(hello@), now)
        } else {
            old(store)@
        },
        r matches Ok(session) ==> session.0@ == reply_of(
            server_key_of(cookie@.key),
            nonce_part(hello@),
            server_nonce@,
        ) && session.1@ == fresh(
            session_secret(cookie@.key, nonce_part(hello@), server_nonce@),
            true,
            cookie@.params,
        ),
{
    proof {
        use_type_invariant(&*store);
    }
    if hello.len() != MESSAGE_LEN {
        return Err(HandshakeFailed);
    }
    let client_key = cookie.derive_key(false);
    if !hello_fits(&client_key, hello, now) {
        return Err(HandshakeFailed);
    }
    let nonce = take32(hello, 0);
    if store.check_and_insert(&nonce, now) {
        return Err(HandshakeFailed);
    }
    let server_key = cookie.derive_key(true);
    let tag = nonces_tag_of(&server_key, 0x11u8, nonce.as_slice(), server_nonce.as_slice());
    let mut reply: Vec<u8> = Vec::new();
    append(&mut reply, server_nonce.as_slice());
    append(&mut reply, tag.as_slice());
    assert(reply@ =~= reply_of(server_key_of(cookie@.key), nonce_part(hello@), server_nonce@));
    let secret = nonces_tag_of(cookie.key(), 0x12u8, nonce.as_slice(), server_nonce.as_slice());
    Ok((reply, State::new(&secret, true, cookie.params())))
}

/// Draws a nonce and answers `hello` with it, as [`server_accept`] does.
pub fn accept(cookie: &Cookie, store: &mut Dedup, hello: &[u8], now: u64) -> (r: Result<
    (Vec<u8>, State),
    HandshakeFailed,
>)
    ensures
        old(store)@.wf(),
        r is Ok <==> answered(client_key_of(cookie@.key), old(store)@, hello@, now),
        final(store)@.wf(),
        final(store)@ == if genuine_hello(client_key_of(cookie@.key), hello@, now) {
            old(store)@.presented(nonce_part(hello@), now)
        } else {
            old(store)@
        },
        r matches Ok(session) ==> session.0@.len() == 64 && genuine_reply(
            server_key_of(cookie@.key),
            nonce_part(hello@),
            session.0@,
        ) && session.1@ == fresh(
            session_secret(cookie@.key, nonce_part(hello@), nonce_part(session.0@)),
            true,
            cookie@.params,
        ),
{
    let server_nonce = random_key();
    let r = server_accept(cookie, store, hello, &server_nonce, now);
    proof {
        if r is Ok {
            let reply = r->Ok_0.0@;
            assert(nonce_part(reply) =~= server_nonce@);
            assert(digest_part(reply) =~= reply_tag(
                server_key_of(cookie@.key),
                nonce_part(hello@),
                server_nonce@,
            ));
        }
    }
    r
}

} // verus!
