//! Wire format of the beat-window protocol.
//!
//! ```text
//!     u8  length               number of beat frames that follow
//!     u64 frame_0              little-endian, oldest published beat
//!     ...
//!     u64 frame_(length-1)     furthest committed beat
//! ```
//!
//! The format itself enforces none of the protocol guarantees; it only
//! fixes the byte layout. Several messages may sit back to back in one
//! buffer: `decode` reports how many bytes the first one took.

use std::io;
use vstd::bytes::{spec_u64_from_le_bytes, spec_u64_to_le_bytes, u64_from_le_bytes, u64_to_le_bytes};
use vstd::prelude::*;
use vstd::slice::slice_subrange;

verus! {

/// Largest window the `u8` length prefix can describe.
pub const MAX_WINDOW_LEN: usize = 255;

/// Lets `std::io::Error` appear in signatures; its contents are opaque here.
#[verifier::external_type_specification]
#[verifier::external_body]
pub struct ExIoError(io::Error);

/// The little-endian bytes of each frame, one after the other.
pub open spec fn frame_bytes(frames: Seq<u64>) -> Seq<u8>
    decreases frames.len(),
{
    if frames.len() == 0 {
        Seq::empty()
    } else {
        frame_bytes(frames.drop_last()) + spec_u64_to_le_bytes(frames.last())
    }
}

/// The message that carries `frames`: the length byte, then the frames.
pub open spec fn spec_encode(frames: Seq<u64>) -> Seq<u8> {
    seq![frames.len() as u8] + frame_bytes(frames)
}

/// Number of bytes of the message whose length byte is `len_byte`.
pub open spec fn message_size(len_byte: u8) -> int {
    1 + 8 * len_byte
}

/// The `i`-th frame of the message at the front of `buf`.
pub open spec fn frame_at(buf: Seq<u8>, i: int) -> u64 {
    spec_u64_from_le_bytes(buf.subrange(1 + 8 * i, 9 + 8 * i))
}

/// The first message of `buf` and the number of bytes it occupies, or
/// `None` when `buf` does not yet hold a complete message.
pub open spec fn spec_decode(buf: Seq<u8>) -> Option<(Seq<u64>, int)> {
    if buf.len() == 0 || buf.len() < message_size(buf[0]) {
        None
    } else {
        Some((Seq::new(buf[0] as nat, |i: int| frame_at(buf, i)), message_size(buf[0])))
    }
}

/// `std::io::Error::new(ErrorKind::InvalidInput, ..)` with a message naming
/// the rejected length. Nothing about the returned error is stated: its kind
/// (`InvalidInput`) and its message are what the body builds, unproved.
#[verifier::external_body]
fn oversize_error(len: usize) -> io::Error {
    io::Error::new(
        io::ErrorKind::InvalidInput,
        format!("window length {} exceeds max {}", len, MAX_WINDOW_LEN),
    )
}

proof fn lemma_frame_bytes_len(frames: Seq<u64>)
    ensures
        frame_bytes(frames).len() == 8 * frames.len(),
    decreases frames.len(),
{
    vstd::bytes::lemma_auto_spec_u64_to_from_le_bytes();
    if frames.len() > 0 {
        lemma_frame_bytes_len(frames.drop_last());
    }
}

/// Bytes `8i .. 8i + 8` of `frame_bytes(frames)` are the encoding of `frames[i]`.
proof fn lemma_frame_bytes_at(frames: Seq<u64>, i: int)
    requires
        0 <= i < frames.len(),
    ensures
        frame_bytes(frames).subrange(8 * i, 8 * i + 8) == spec_u64_to_le_bytes(frames[i]),
    decreases frames.len(),
{
    vstd::bytes::lemma_auto_spec_u64_to_from_le_bytes();
    let init = frames.drop_last();
    lemma_frame_bytes_len(init);
    if i == frames.len() - 1 {
        assert(frame_bytes(frames).subrange(8 * i, 8 * i + 8) =~= spec_u64_to_le_bytes(frames[i]));
    } else {
        lemma_frame_bytes_at(init, i);
        assert(frame_bytes(frames).subrange(8 * i, 8 * i + 8) =~= frame_bytes(init).subrange(
            8 * i,
            8 * i + 8,
        ));
    }
}

proof fn lemma_encode_shape(frames: Seq<u64>)
    requires
        frames.len() <= MAX_WINDOW_LEN,
    ensures
        spec_encode(frames).len() == 1 + 8 * frames.len(),
        spec_encode(frames)[0] == frames.len(),
        spec_encode(frames).subrange(1, 1 + 8 * frames.len() as int) == frame_bytes(frames),
{
    lemma_frame_bytes_len(frames);
    assert(spec_encode(frames).subrange(1, 1 + 8 * frames.len() as int) =~= frame_bytes(frames));
}

/// Decoding a buffer that starts with the encoding of `frames` gives back
/// exactly `frames` and consumes exactly that message, whatever bytes
/// follow it (so concatenated messages are taken one at a time).
pub proof fn lemma_decode_encode(frames: Seq<u64>, rest: Seq<u8>)
    requires
        frames.len() <= MAX_WINDOW_LEN,
    ensures
        spec_decode(spec_encode(frames) + rest) == Some((frames, 1 + 8 * frames.len() as int)),
{
    vstd::bytes::lemma_auto_spec_u64_to_from_le_bytes();
    lemma_encode_shape(frames);
    let buf = spec_encode(frames) + rest;
    assert(buf[0] == frames.len());
    let decoded = Seq::new(buf[0] as nat, |i: int| frame_at(buf, i));
    assert forall|i: int| 0 <= i < frames.len() implies decoded[i] == frames[i] by {
        lemma_frame_bytes_at(frames, i);
        assert(buf.subrange(1 + 8 * i, 9 + 8 * i) =~= frame_bytes(frames).subrange(8 * i, 8 * i + 8));
    }
    assert(decoded =~= frames);
}

/// A buffer holding only part of a message decodes to `None`: the caller
/// must wait for more bytes.
pub proof fn lemma_decode_partial(frames: Seq<u64>, k: int)
    requires
        frames.len() <= MAX_WINDOW_LEN,
        0 <= k < spec_encode(frames).len(),
    ensures
        spec_decode(spec_encode(frames).take(k)) is None,
{
    lemma_encode_shape(frames);
}

/// Whatever `decode` accepts is a message that `encode` produces: the
/// consumed bytes are exactly the encoding of the decoded window.
pub proof fn lemma_encode_decode(buf: Seq<u8>)
    requires
        spec_decode(buf) is Some,
    ensures
        ({
            let (frames, consumed) = spec_decode(buf).unwrap();
            &&& frames.len() <= MAX_WINDOW_LEN
            &&& spec_encode(frames) == buf.subrange(0, consumed)
        }),
{
    vstd::bytes::lemma_auto_spec_u64_to_from_le_bytes();
    let (frames, consumed) = spec_decode(buf).unwrap();
    lemma_encode_shape(frames);
    let body = buf.subrange(1, consumed);
    assert forall|k: int| 0 <= k < 8 * frames.len() implies #[trigger] frame_bytes(frames)[k]
        == body[k] by {
        let i = k / 8;
        let j = k % 8;
        assert(0 <= i < frames.len() && 0 <= j < 8 && k == 8 * i + j) by (nonlinear_arith)
            requires
                0 <= k < 8 * frames.len(),
                i == k / 8,
                j == k % 8,
        ;
        lemma_frame_bytes_at(frames, i);
        let chunk = buf.subrange(1 + 8 * i, 9 + 8 * i);
        assert(frames[i] == spec_u64_from_le_bytes(chunk));
        assert(spec_u64_to_le_bytes(spec_u64_from_le_bytes(chunk)) == chunk);
        assert(frame_bytes(frames).subrange(8 * i, 8 * i + 8)[j] == frame_bytes(frames)[k]);
    }
    assert(frame_bytes(frames) =~= body);
    assert(spec_encode(frames) =~= buf.subrange(0, consumed));
}

/// Encode a window of beat frames.
///
/// Fails exactly when the window is longer than [`MAX_WINDOW_LEN`].
pub fn encode(frames: &[u64]) -> (result: io::Result<Vec<u8>>)
    ensures
        match result {
            Ok(bytes) => frames@.len() <= MAX_WINDOW_LEN && bytes@ == spec_encode(frames@),
            Err(_) => frames@.len() > MAX_WINDOW_LEN,
        },
{
    if frames.len() > MAX_WINDOW_LEN {
        return Err(oversize_error(frames.len()));
    }
    let mut out: Vec<u8> = Vec::with_capacity(1 + frames.len() * 8);
    out.push(frames.len() as u8);
    let mut i: usize = 0;
    while i < frames.len()
        invariant
            i <= frames@.len() <= MAX_WINDOW_LEN,
            out@ == seq![frames@.len() as u8] + frame_bytes(frames@.take(i as int)),
        decreases frames@.len() - i,
    {
        let mut bytes = u64_to_le_bytes(frames[i]);
        proof {
            let next = frames@.take(i + 1);
            assert(next.drop_last() =~= frames@.take(i as int));
            assert(next.last() == frames@[i as int]);
        }
        out.append(&mut bytes);
        i = i + 1;
        proof {
            assert(out@ =~= seq![frames@.len() as u8] + frame_bytes(frames@.take(i as int)));
        }
    }
    assert(frames@.take(frames@.len() as int) =~= frames@);
    Ok(out)
}

/// Try to decode one message from the front of `buf`.
///
/// `Ok(None)` means `buf` does not yet hold a complete message (read more
/// and try again); `Ok(Some((window, consumed)))` gives the first window and
/// the number of bytes it took. The error case never occurs.
pub fn decode(buf: &[u8]) -> (result: io::Result<Option<(Vec<u64>, usize)>>)
    ensures
        match result {
            Ok(None) => spec_decode(buf@) is None,
            Ok(Some((frames, consumed))) => spec_decode(buf@) == Some((frames@, consumed as int)),
            Err(_) => false,
        },
{
    if buf.len() == 0 {
        return Ok(None);
    }
    let len = buf[0] as usize;
    let needed = 1 + len * 8;
    if buf.len() < needed {
        return Ok(None);
    }
    let mut frames: Vec<u64> = Vec::with_capacity(len);
    let mut i: usize = 0;
    while i < len
        invariant
            len == buf@[0],
            needed == message_size(buf@[0]),
            needed <= buf@.len(),
            i <= len,
            frames@ =~= Seq::new(i as nat, |k: int| frame_at(buf@, k)),
        decreases len - i,
    {
        let start = 1 + i * 8;
        let chunk = slice_subrange(buf, start, start + 8);
        let f = u64_from_le_bytes(chunk);
        frames.push(f);
        i = i + 1;
    }
    Ok(Some((frames, needed)))
}

} // verus!
