//! An obfuscating transport layer: a pre-shared cookie, a short handshake
//! that turns it into a per-session secret, and an engine that carries a byte
//! stream as authenticated frames whose lengths and contents look random.
//!
//! Everything in this crate is pure: it works on byte buffers and plain
//! values, and leaves sockets, clocks and schedulers to its caller.

pub mod aead;
pub mod bytes;
pub mod cookie;
pub mod dedup;
pub mod handshake;
pub mod kdf;
pub mod params;
pub mod pipe;
pub mod state;
pub mod stream;

pub use cookie::Cookie;
pub use params::ObfsParams;
pub use pipe::SosistabPipe;
