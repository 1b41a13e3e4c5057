//! Authenticated encryption of one message under a key, a frame counter and a
//! lane.
//!
//! The message is masked with a keystream and the masked bytes are then
//! tagged, both with the keyed digest of [`crate::kdf`]: block `b` of the
//! keystream is the digest of a label that starts with 0 and holds the
//! counter, the lane and `b`; the tag is the first [`TAG_LEN`] bytes of the
//! digest of a label that starts with 1 and holds the counter, the lane and
//! the masked bytes. A (counter, lane) pair must be used for one message only.

use vstd::prelude::*;
use crate::bytes::{append, be64, push_be64, same_bytes};
use crate::kdf::{keyed_digest, keyed_hash};

verus! {

/// Length in bytes of the tag that closes every sealed message.
pub const TAG_LEN: usize = 16;

/// The digest input that yields keystream block `block`.
pub open spec fn block_label(counter: u64, lane: u8, block: u64) -> Seq<u8> {
    seq![0u8] + be64(counter) + seq![lane] + be64(block)
}

/// Byte `i` of the keystream.
pub open spec fn pad_byte(key: Seq<u8>, counter: u64, lane: u8, i: int) -> u8 {
    keyed_digest(key, block_label(counter, lane, (i / 32) as u64))[i % 32]
}

/// The first `n` bytes of the keystream.
pub open spec fn keystream(key: Seq<u8>, counter: u64, lane: u8, n: int) -> Seq<u8> {
    Seq::new(n as nat, |i: int| pad_byte(key, counter, lane, i))
}

/// `data` with `pad` xored onto it, byte by byte, as far as `pad` goes.
pub open spec fn xored(data: Seq<u8>, pad: Seq<u8>) -> Seq<u8> {
    Seq::new(
        data.len(),
        |i: int|
            if i < pad.len() {
                data[i] ^ pad[i]
            } else {
                data[i]
            },
    )
}

/// `data` with the keystream xored onto it. Masking twice gives `data` back.
pub open spec fn masked(key: Seq<u8>, counter: u64, lane: u8, data: Seq<u8>) -> Seq<u8> {
    xored(data, keystream(key, counter, lane, data.len() as int))
}

/// The digest input that yields the tag of `cipher`.
pub open spec fn tag_label(counter: u64, lane: u8, cipher: Seq<u8>) -> Seq<u8> {
    seq![1u8] + be64(counter) + seq![lane] + cipher
}

/// The tag of the masked bytes `cipher`.
pub open spec fn tag_of(key: Seq<u8>, counter: u64, lane: u8, cipher: Seq<u8>) -> Seq<u8> {
    Seq::new(16, |i: int| keyed_digest(key, tag_label(counter, lane, cipher))[i])
}

/// The sealed form of `plain`: its masked bytes, then their tag.
pub open spec fn sealed(key: Seq<u8>, counter: u64, lane: u8, plain: Seq<u8>) -> Seq<u8> {
    let cipher = masked(key, counter, lane, plain);
    cipher + tag_of(key, counter, lane, cipher)
}

/// The masked part of a sealed message: all but its last [`TAG_LEN`] bytes.
pub open spec fn cipher_part(boxed: Seq<u8>) -> Seq<u8> {
    boxed.subrange(0, boxed.len() - 16)
}

/// The tag part of a sealed message: its last [`TAG_LEN`] bytes.
pub open spec fn tag_part(boxed: Seq<u8>) -> Seq<u8> {
    boxed.subrange(boxed.len() - 16, boxed.len() as int)
}

/// What `boxed` opens to: the unmasked message where `boxed` ends in the tag
/// of what stands before it, nothing otherwise.
pub open spec fn opened(key: Seq<u8>, counter: u64, lane: u8, boxed: Seq<u8>) -> Option<Seq<u8>> {
    if boxed.len() < 16 {
        None
    } else if tag_part(boxed) == tag_of(key, counter, lane, cipher_part(boxed)) {
        Some(masked(key, counter, lane, cipher_part(boxed)))
    } else {
        None
    }
}

/// Xoring the same pad on twice gives the data back.
pub proof fn lemma_xor_twice(data: Seq<u8>, pad: Seq<u8>)
    ensures
        xored(xored(data, pad), pad) == data,
{
    let twice = xored(xored(data, pad), pad);
    assert forall|i: int| 0 <= i < data.len() implies twice[i] == data[i] by {
        if i < pad.len() {
            let d = data[i];
            let k = pad[i];
            assert((d ^ k) ^ k == d) by (bit_vector);
        }
    }
    assert(twice =~= data);
}

/// Masking is its own inverse.
pub proof fn lemma_mask_twice(key: Seq<u8>, counter: u64, lane: u8, data: Seq<u8>)
    ensures
        masked(key, counter, lane, masked(key, counter, lane, data)) == data,
{
    lemma_xor_twice(data, keystream(key, counter, lane, data.len() as int));
}

/// A sealed message is [`TAG_LEN`] bytes longer than the message, and splits
/// into the masked message and its tag.
pub proof fn lemma_sealed_parts(key: Seq<u8>, counter: u64, lane: u8, plain: Seq<u8>)
    ensures
        sealed(key, counter, lane, plain).len() == plain.len() + 16,
        cipher_part(sealed(key, counter, lane, plain)) == masked(key, counter, lane, plain),
        tag_part(sealed(key, counter, lane, plain)) == tag_of(
            key,
            counter,
            lane,
            masked(key, counter, lane, plain),
        ),
{
    let cipher = masked(key, counter, lane, plain);
    let boxed = sealed(key, counter, lane, plain);
    assert(cipher_part(boxed) =~= cipher);
    assert(tag_part(boxed) =~= tag_of(key, counter, lane, cipher));
}

/// Opening what was sealed under the same key, counter and lane gives the
/// message back.
pub proof fn lemma_open_sealed(key: Seq<u8>, counter: u64, lane: u8, plain: Seq<u8>)
    ensures
        opened(key, counter, lane, sealed(key, counter, lane, plain)) == Some(plain),
{
    lemma_sealed_parts(key, counter, lane, plain);
    lemma_mask_twice(key, counter, lane, plain);
}

/// What opens is [`TAG_LEN`] bytes shorter than what was sealed.
pub proof fn lemma_opened_len(key: Seq<u8>, counter: u64, lane: u8, boxed: Seq<u8>)
    ensures
        opened(key, counter, lane, boxed) matches Some(plain) ==> plain.len() + 16 == boxed.len(),
{
}

/// Whether `altered` passes for a sealed message although it is not the
/// `genuine` one: its masked bytes differ, and yet it ends in their tag. To
/// make one without the key is to forge the keyed digest.
pub open spec fn forgery(key: Seq<u8>, counter: u64, lane: u8, genuine: Seq<u8>, altered: Seq<u8>) -> bool {
    &&& altered.len() == genuine.len()
    &&& cipher_part(altered) != cipher_part(genuine)
    &&& tag_part(altered) == tag_of(key, counter, lane, cipher_part(altered))
}

/// A sealed message that was altered, at equal length, does not open unless
/// it is a forgery.
pub proof fn lemma_altered_seal(
    key: Seq<u8>,
    counter: u64,
    lane: u8,
    plain: Seq<u8>,
    altered: Seq<u8>,
)
    requires
        altered.len() == plain.len() + 16,
        altered != sealed(key, counter, lane, plain),
    ensures
        opened(key, counter, lane, altered) is None || forgery(
            key,
            counter,
            lane,
            sealed(key, counter, lane, plain),
            altered,
        ),
{
    let genuine = sealed(key, counter, lane, plain);
    lemma_sealed_parts(key, counter, lane, plain);
    if cipher_part(altered) == cipher_part(genuine) {
        if tag_part(altered) == tag_part(genuine) {
            assert(altered =~= cipher_part(altered) + tag_part(altered));
            assert(genuine =~= cipher_part(genuine) + tag_part(genuine));
        }
    }
}

/// Keystream block `block`.
pub(crate) fn pad_block(key: &[u8; 32], counter: u64, lane: u8, block: u64) -> (r: [u8; 32])
    ensures
        r@ == keyed_digest(key@, block_label(counter, lane, block)),
{
    let mut label: Vec<u8> = Vec::new();
    label.push(0u8);
    push_be64(&mut label, counter);
    label.push(lane);
    push_be64(&mut label, block);
    assert(label@ =~= block_label(counter, lane, block));
    keyed_hash(key, label.as_slice())
}

/// The first `n` bytes of the keystream.
fn keystream_of(key: &[u8; 32], counter: u64, lane: u8, n: usize) -> (r: Vec<u8>)
    ensures
        r@ == keystream(key@, counter, lane, n as int),
{
    let mut r: Vec<u8> = Vec::new();
    let mut block: [u8; 32] = pad_block(key, counter, lane, 0);
    let mut i: usize = 0;
    while i < n
        invariant
            i <= n,
            r@.len() == i,
            forall|j: int| 0 <= j < i ==> r@[j] == pad_byte(key@, counter, lane, j),
            block@ == keyed_digest(key@, block_label(counter, lane, (i / 32) as u64)),
        decreases n - i,
    {
        r.push(block[i % 32]);
        i += 1;
        if i % 32 == 0 {
            block = pad_block(key, counter, lane, (i / 32) as u64);
        }
    }
    assert(r@ =~= keystream(key@, counter, lane, n as int));
    r
}

/// `data` with `pad` xored onto it, byte by byte, as far as `pad` goes.
pub fn xor_bytes(data: &[u8], pad: &[u8]) -> (r: Vec<u8>)
    ensures
        r@ == xored(data@, pad@),
{
    let mut r: Vec<u8> = Vec::new();
    let n: usize = data.len();
    let m: usize = pad.len();
    let mut i: usize = 0;
    while i < n
        invariant
            i <= n == data@.len(),
            m == pad@.len(),
            r@.len() == i,
            forall|j: int| 0 <= j < i ==> r@[j] == xored(data@, pad@)[j],
        decreases n - i,
    {
        if i < m {
            r.push(data[i] ^ pad[i]);
        } else {
            r.push(data[i]);
        }
        i += 1;
    }
    assert(r@ =~= xored(data@, pad@));
    r
}

/// Xors the keystream onto `data`.
fn mask(key: &[u8; 32], counter: u64, lane: u8, data: &[u8]) -> (r: Vec<u8>)
    ensures
        r@ == masked(key@, counter, lane, data@),
{
    let pad = keystream_of(key, counter, lane, data.len());
    xor_bytes(data, pad.as_slice())
}

/// The tag of `cipher`.
fn tag(key: &[u8; 32], counter: u64, lane: u8, cipher: &[u8]) -> (r: Vec<u8>)
    ensures
        r@ == tag_of(key@, counter, lane, cipher@),
{
    let mut label: Vec<u8> = Vec::new();
    label.push(1u8);
    push_be64(&mut label, counter);
    label.push(lane);
    append(&mut label, cipher);
    assert(label@ =~= tag_label(counter, lane, cipher@));
    let digest = keyed_hash(key, label.as_slice());
    let mut r: Vec<u8> = Vec::new();
    append(&mut r, vstd::slice::slice_subrange(digest.as_slice(), 0, TAG_LEN));
    assert(r@ =~= tag_of(key@, counter, lane, cipher@));
    r
}

/// Appends to `out` the sealed form of `plain`.
pub fn seal(key: &[u8; 32], counter: u64, lane: u8, plain: &[u8], out: &mut Vec<u8>)
    ensures
        final(out)@ == old(out)@ + sealed(key@, counter, lane, plain@),
{
    let cipher = mask(key, counter, lane, plain);
    let t = tag(key, counter, lane, cipher.as_slice());
    append(out, cipher.as_slice());
    append(out, t.as_slice());
    assert(out@ =~= old(out)@ + sealed(key@, counter, lane, plain@));
}

/// Opens `boxed`: the message, where `boxed` ends in the tag of what stands
/// before it under this key, counter and lane; `None` otherwise.
pub fn open(key: &[u8; 32], counter: u64, lane: u8, boxed: &[u8]) -> (r: Option<Vec<u8>>)
    ensures
        r is Some <==> opened(key@, counter, lane, boxed@) is Some,
        r matches Some(plain) ==> opened(key@, counter, lane, boxed@) == Some(plain@),
{
    let n: usize = boxed.len();
    if n < TAG_LEN {
        return None;
    }
    let cipher = vstd::slice::slice_subrange(boxed, 0, n - TAG_LEN);
    let claimed = vstd::slice::slice_subrange(boxed, n - TAG_LEN, n);
    let t = tag(key, counter, lane, cipher);
    if same_bytes(t.as_slice(), claimed) {
        Some(mask(key, counter, lane, cipher))
    } else {
        None
    }
}

} // verus!
