use sillad_sosistab3::dedup::Dedup;
use sillad_sosistab3::handshake::{accept, client_finish, client_hello, dial, server_accept, HandshakeFailed};
use sillad_sosistab3::{Cookie, ObfsParams, SosistabPipe};

fn payload(n: usize, seed: u8) -> Vec<u8> {
    (0..n).map(|i| (i as u8).wrapping_mul(13).wrapping_add(seed)).collect()
}

/// Carries everything `from` has to send over to `to`, `step` bytes at a
/// time, and returns what `to` then has to read.
fn carry(from: &mut SosistabPipe, to: &mut SosistabPipe, plain: &[u8], step: usize) -> (usize, Vec<u8>) {
    assert_eq!(from.write_start(plain), Ok(()));
    let mut written = None;
    while written.is_none() {
        let n = from.unsent().len().min(step);
        let chunk = from.unsent()[..n].to_vec();
        written = from.write_advance(n, plain.len());
        if !chunk.is_empty() {
            assert_eq!(to.read_fill(&chunk), Ok(()));
        }
    }
    let mut got = Vec::new();
    while to.read_ready() {
        let part = to.read_take(1000);
        if part.is_empty() {
            break;
        }
        got.extend(part);
    }
    (written.unwrap(), got)
}

#[test]
fn same_cookie_end_to_end() {
    for text in ["shared secret", "shared secret---{\"obfs_lengths\":true,\"obfs_timing\":true}"] {
        let client_cookie = Cookie::new(text);
        let server_cookie = Cookie::new(text);
        let mut store = Dedup::new(180, 1024);
        let (hello, nonce) = dial(&client_cookie, 1_700_000_000);
        assert_eq!(hello.len(), 64);
        let (reply, server_state) = accept(&server_cookie, &mut store, &hello, 1_700_000_030).unwrap();
        assert_eq!(reply.len(), 64);
        let client_state = client_finish(&client_cookie, &nonce, &reply).unwrap();
        assert_eq!(client_state.shared_secret(), server_state.shared_secret());
        assert_eq!(client_state.params(), client_cookie.params());
        assert_eq!(server_state.params(), client_cookie.params());

        let mut client = SosistabPipe::new(client_state);
        let mut server = SosistabPipe::new(server_state);
        let up = payload(10 * 1024, 1);
        let down = payload(10 * 1024, 2);
        for step in [1usize << 20, 1500, 17] {
            let (written, read) = carry(&mut client, &mut server, &up, step);
            assert_eq!(written, 10 * 1024);
            assert_eq!(read.len(), 10 * 1024);
            assert_eq!(read, up);
            let (written, read) = carry(&mut server, &mut client, &down, step);
            assert_eq!(written, 10 * 1024);
            assert_eq!(read.len(), 10 * 1024);
            assert_eq!(read, down);
        }
    }
}

#[test]
fn mismatched_cookies_fail() {
    let client_cookie = Cookie::new("one cookie");
    let server_cookie = Cookie::new("another cookie");
    let mut store = Dedup::new(180, 1024);
    let (hello, nonce) = dial(&client_cookie, 1000);
    assert!(matches!(accept(&server_cookie, &mut store, &hello, 1000), Err(HandshakeFailed)));
    assert_eq!(store.len(), 0);

    let mut other_store = Dedup::new(180, 1024);
    let (other_hello, _) = dial(&server_cookie, 1000);
    let (reply, _) = accept(&server_cookie, &mut other_store, &other_hello, 1000).unwrap();
    assert!(matches!(client_finish(&client_cookie, &nonce, &reply), Err(HandshakeFailed)));
}

#[test]
fn same_token_other_params_still_agree_on_keys() {
    let client_cookie = Cookie::new("token---{\"obfs_lengths\":true}");
    let server_cookie = Cookie::new("token");
    let mut store = Dedup::new(180, 8);
    let (hello, nonce) = dial(&client_cookie, 5);
    let (reply, server_state) = accept(&server_cookie, &mut store, &hello, 5).unwrap();
    let client_state = client_finish(&client_cookie, &nonce, &reply).unwrap();
    assert_eq!(client_state.shared_secret(), server_state.shared_secret());
    assert!(client_state.params().obfs_lengths);
    assert!(!server_state.params().obfs_lengths);
}

#[test]
fn replayed_hello_is_rejected() {
    let cookie = Cookie::new("shared");
    let mut store = Dedup::new(180, 1024);
    let (hello, _) = dial(&cookie, 6000);
    assert!(accept(&cookie, &mut store, &hello, 6000).is_ok());
    assert!(matches!(accept(&cookie, &mut store, &hello, 6000), Err(HandshakeFailed)));
    assert!(matches!(accept(&cookie, &mut store, &hello, 6059), Err(HandshakeFailed)));
    assert!(matches!(accept(&cookie, &mut store, &hello, 6119), Err(HandshakeFailed)));
    assert!(matches!(accept(&cookie, &mut store, &hello, 6180), Err(HandshakeFailed)));
    assert!(matches!(accept(&cookie, &mut store, &hello, 60_000), Err(HandshakeFailed)));
    let (fresh, _) = dial(&cookie, 6000);
    assert!(accept(&cookie, &mut store, &fresh, 6001).is_ok());
}

#[test]
fn hello_is_bound_to_its_epoch() {
    let cookie = Cookie::new("shared");
    let nonce = [9u8; 32];
    let hello = client_hello(&cookie, &nonce, 600);
    for (now, ok) in [(540u64, true), (599, true), (600, true), (659, true), (660, true), (719, true), (720, false), (539, false), (0, false), (10_000, false)] {
        let mut store = Dedup::new(180, 8);
        let r = server_accept(&cookie, &mut store, &hello, &[1u8; 32], now);
        assert_eq!(r.is_ok(), ok, "at {}", now);
        assert_eq!(store.len(), if ok { 1 } else { 0 });
    }
    let early = client_hello(&cookie, &nonce, 0);
    let mut store = Dedup::new(180, 8);
    assert!(server_accept(&cookie, &mut store, &early, &[1u8; 32], 0).is_ok());
    let mut store = Dedup::new(180, 8);
    assert!(server_accept(&cookie, &mut store, &early, &[1u8; 32], 119).is_ok());
    let mut store = Dedup::new(180, 8);
    assert!(server_accept(&cookie, &mut store, &early, &[1u8; 32], 120).is_err());
}

#[test]
fn messages_are_nonce_and_digest() {
    let cookie = Cookie::new("shared");
    let nonce = [9u8; 32];
    let server_nonce = [4u8; 32];
    let hello = client_hello(&cookie, &nonce, 125);
    let mut label = vec![0x10u8];
    label.extend_from_slice(&nonce);
    label.extend_from_slice(&2u64.to_be_bytes());
    let mut want = nonce.to_vec();
    want.extend_from_slice(blake3::keyed_hash(&cookie.derive_key(false), &label).as_bytes());
    assert_eq!(hello, want);

    let mut store = Dedup::new(180, 8);
    let (reply, server_state) = server_accept(&cookie, &mut store, &hello, &server_nonce, 125).unwrap();
    let mut label = vec![0x11u8];
    label.extend_from_slice(&nonce);
    label.extend_from_slice(&server_nonce);
    let mut want = server_nonce.to_vec();
    want.extend_from_slice(blake3::keyed_hash(&cookie.derive_key(true), &label).as_bytes());
    assert_eq!(reply, want);

    label[0] = 0x12;
    let secret = blake3::keyed_hash(cookie.key(), &label);
    assert_eq!(server_state.shared_secret(), secret.as_bytes());
    let client_state = client_finish(&cookie, &nonce, &reply).unwrap();
    assert_eq!(client_state.shared_secret(), secret.as_bytes());
}

#[test]
fn malformed_messages_fail() {
    let cookie = Cookie::new("shared");
    let nonce = [9u8; 32];
    let hello = client_hello(&cookie, &nonce, 1000);
    let mut store = Dedup::new(180, 8);
    for bad in [&hello[..63], &hello[..0], &[hello.clone(), vec![0]].concat()[..]] {
        assert!(server_accept(&cookie, &mut store, bad, &[1u8; 32], 1000).is_err());
    }
    for i in 0..64 {
        let mut bad = hello.clone();
        bad[i] ^= 1;
        assert!(server_accept(&cookie, &mut store, &bad, &[1u8; 32], 1000).is_err());
    }
    assert_eq!(store.len(), 0);
    let (reply, _) = server_accept(&cookie, &mut store, &hello, &[1u8; 32], 1000).unwrap();
    assert!(client_finish(&cookie, &nonce, &reply[..63]).is_err());
    assert!(client_finish(&cookie, &nonce, &[]).is_err());
    for i in 0..64 {
        let mut bad = reply.clone();
        bad[i] ^= 0x40;
        assert!(client_finish(&cookie, &nonce, &bad).is_err());
    }
    assert!(client_finish(&cookie, &[8u8; 32], &reply).is_err());
    assert!(client_finish(&cookie, &nonce, &reply).is_ok());
}

#[test]
fn sessions_of_one_cookie_have_different_secrets() {
    let cookie = Cookie::random_with_params(ObfsParams { obfs_lengths: true, obfs_timing: false });
    let mut store = Dedup::new(180, 8);
    let (hello_a, nonce_a) = dial(&cookie, 1);
    let (hello_b, nonce_b) = dial(&cookie, 1);
    assert_ne!(nonce_a, nonce_b);
    let (_, a) = accept(&cookie, &mut store, &hello_a, 1).unwrap();
    let (_, b) = accept(&cookie, &mut store, &hello_b, 1).unwrap();
    assert_ne!(a.shared_secret(), b.shared_secret());
    assert_ne!(a.shared_secret(), cookie.key());
}
