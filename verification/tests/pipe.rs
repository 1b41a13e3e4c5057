use sillad_sosistab3::pipe::FlushStep;
use sillad_sosistab3::state::{EngineError, State};
use sillad_sosistab3::{ObfsParams, SosistabPipe};

const PLAIN: ObfsParams = ObfsParams { obfs_lengths: false, obfs_timing: false };

fn pipes(params: ObfsParams) -> (SosistabPipe, SosistabPipe) {
    let secret = [0x11u8; 32];
    (
        SosistabPipe::new(State::new(&secret, false, params)),
        SosistabPipe::new(State::new(&secret, true, params)),
    )
}

#[test]
fn identity_surface() {
    let (client, server) = pipes(PLAIN);
    assert_eq!(client.protocol(), "sosistab3");
    assert_eq!(client.shared_secret(), &[0x11u8; 32]);
    assert_eq!(client.shared_secret(), server.shared_secret());
}

#[test]
fn write_is_done_when_everything_is_sent() {
    let (mut client, _) = pipes(PLAIN);
    assert!(client.unsent().is_empty());
    assert_eq!(client.write_start(b"twelve bytes"), Ok(()));
    assert_eq!(client.unsent().len(), 36 + 12);
    let frames = client.unsent().to_vec();
    assert_eq!(client.write_advance(10, 12), None);
    assert_eq!(client.unsent(), &frames[10..]);
    assert_eq!(client.write_start(b"twelve bytes"), Ok(()));
    assert_eq!(client.unsent(), &frames[10..]);
    assert_eq!(client.write_advance(0, 12), None);
    assert_eq!(client.write_advance(37, 12), None);
    assert_eq!(client.unsent().len(), 1);
    assert_eq!(client.write_advance(1, 12), Some(12));
    assert!(client.unsent().is_empty());
}

#[test]
fn empty_write_is_done_at_once() {
    let (mut client, _) = pipes(PLAIN);
    assert_eq!(client.write_start(b""), Ok(()));
    assert!(client.unsent().is_empty());
    assert_eq!(client.write_advance(0, 0), Some(0));
}

#[test]
fn flush_waits_for_unsent_bytes() {
    let (mut client, _) = pipes(PLAIN);
    assert!(!client.flush_needs_write());
    assert_eq!(client.write_start(b"abc"), Ok(()));
    assert!(client.flush_needs_write());
    assert_eq!(client.flush_advance(20), FlushStep::Pending);
    assert!(client.flush_needs_write());
    assert_eq!(client.flush_advance(19), FlushStep::FlushLower);
    assert!(!client.flush_needs_write());
}

#[test]
fn read_serves_what_was_decrypted() {
    let (mut client, mut server) = pipes(PLAIN);
    assert!(!server.read_ready());
    assert!(server.read_take(10).is_empty());
    assert_eq!(client.write_start(b"hello, world"), Ok(()));
    let wire = client.unsent().to_vec();
    assert_eq!(server.read_fill(&wire[..30]), Ok(()));
    assert!(!server.read_ready());
    assert_eq!(server.read_fill(&wire[30..]), Ok(()));
    assert!(server.read_ready());
    assert_eq!(server.read_take(5), b"hello");
    assert!(server.read_ready());
    assert_eq!(server.read_take(0), b"");
    assert_eq!(server.read_take(100), b", world");
    assert!(!server.read_ready());
}

#[test]
fn several_frames_in_one_read() {
    let (mut client, mut server) = pipes(ObfsParams { obfs_lengths: true, obfs_timing: false });
    let mut wire = Vec::new();
    for part in [&b"one"[..], b"two", b"three"] {
        assert_eq!(client.write_start(part), Ok(()));
        wire.extend_from_slice(client.unsent());
        let n = client.unsent().len();
        assert_eq!(client.write_advance(n, part.len()), Some(part.len()));
    }
    assert_eq!(wire.len(), 3 * 100);
    assert_eq!(server.read_fill(&wire[..250]), Ok(()));
    assert_eq!(server.read_take(100), b"onetwo");
    assert_eq!(server.read_fill(&wire[250..]), Ok(()));
    assert_eq!(server.read_take(100), b"three");
}

#[test]
fn end_of_stream_reads_as_nothing() {
    let (mut client, mut server) = pipes(PLAIN);
    assert_eq!(client.write_start(b"last words"), Ok(()));
    let wire = client.unsent().to_vec();
    assert_eq!(server.read_fill(&wire), Ok(()));
    assert_eq!(server.read_fill(&[]), Ok(()));
    assert!(server.read_ready());
    assert_eq!(server.read_take(4), b"last");
    assert_eq!(server.read_take(100), b" words");
    assert!(server.read_ready());
    assert!(server.read_take(100).is_empty());
}

#[test]
fn forged_bytes_break_the_pipe_for_good() {
    let (mut client, mut server) = pipes(PLAIN);
    assert_eq!(client.write_start(b"first"), Ok(()));
    let mut wire = client.unsent().to_vec();
    let n = wire.len();
    assert_eq!(client.write_advance(n, 5), Some(5));
    assert_eq!(client.write_start(b"second"), Ok(()));
    let good = client.unsent().to_vec();
    let mut bad = good.clone();
    bad[3] ^= 1;
    wire.extend_from_slice(&bad);
    assert_eq!(server.read_fill(&wire), Err(EngineError::Forged));
    assert_eq!(server.read_take(100), b"first");
    assert_eq!(server.read_fill(&good), Err(EngineError::Forged));
    assert_eq!(server.read_fill(&[]), Err(EngineError::Forged));
    assert!(!server.read_ready());
}

#[test]
fn exhausted_engine_refuses_to_write() {
    let secret = [0x11u8; 32];
    let mut client = SosistabPipe::new(State::restore(&secret, false, PLAIN, u64::MAX, 0));
    assert_eq!(client.write_start(b"x"), Err(EngineError::Exhausted));
    assert!(client.unsent().is_empty());
}

#[test]
fn delay_is_handed_out_once() {
    let timed = ObfsParams { obfs_lengths: false, obfs_timing: true };
    let (mut client, _) = pipes(timed);
    let mut total = 0u64;
    for _ in 0..64 {
        assert_eq!(client.write_start(&[0u8; 100]), Ok(()));
        let n = client.unsent().len();
        assert_eq!(client.write_advance(n, 100), Some(100));
        let d = client.take_delay();
        assert!(d < 16);
        assert_eq!(client.take_delay(), 0);
        total += d;
    }
    assert!(total > 0);
    let (mut quiet, _) = pipes(PLAIN);
    assert_eq!(quiet.write_start(&[0u8; 100]), Ok(()));
    assert_eq!(quiet.take_delay(), 0);
}
