//! The consumer: draining received bytes into a [`BeatWindow`], and the
//! thread-safe read API over a window shared with the receiving task.
//!
//! The network shell reads bytes from the producer, appends them to a
//! pending buffer and hands it to a [`WindowFeed`], which applies every
//! complete message to the shared window (see [`drain_messages`]) and
//! leaves the incomplete tail for the next read.

use crate::window::{
    after_update, last_beat_gap, segment_containing, strictly_increasing, update_outcome,
    BeatWindow, UpdateError,
};
use crate::wire::{decode, spec_decode};
use std::sync::Arc;
use vstd::prelude::*;
use vstd::rwlock::{RwLock, RwLockPredicate};
use vstd::slice::{slice_subrange, slice_to_vec};

verus! {

/// The complete messages at the front of `buf`, in order, and the number
/// of bytes they take; what follows them is an incomplete message.
pub open spec fn split_messages(buf: Seq<u8>) -> (Seq<Seq<u64>>, int)
    decreases buf.len(),
{
    match spec_decode(buf) {
        None => (Seq::empty(), 0),
        Some((frames, consumed)) => {
            let (rest, more) = split_messages(buf.skip(consumed));
            (seq![frames] + rest, consumed + more)
        },
    }
}

/// The window after offering `windows` in order to a window holding
/// `current`, and the rejections, in order.
pub open spec fn apply_windows(current: Seq<u64>, windows: Seq<Seq<u64>>) -> (Seq<u64>, Seq<UpdateError>)
    decreases windows.len(),
{
    if windows.len() == 0 {
        (current, Seq::empty())
    } else {
        let (before, errors) = apply_windows(current, windows.drop_last());
        match update_outcome(before, windows.last()) {
            Ok(()) => (after_update(before, windows.last()), errors),
            Err(e) => (before, errors.push(e)),
        }
    }
}

proof fn lemma_split_step(buf: Seq<u8>, offset: int)
    requires
        0 <= offset <= buf.len(),
        spec_decode(buf.skip(offset)) is Some,
    ensures
        ({
            let (frames, consumed) = spec_decode(buf.skip(offset)).unwrap();
            &&& 0 < consumed <= buf.len() - offset
            &&& buf.skip(offset).skip(consumed) == buf.skip(offset + consumed)
            &&& split_messages(buf.skip(offset)) == (
                seq![frames] + split_messages(buf.skip(offset + consumed)).0,
                consumed + split_messages(buf.skip(offset + consumed)).1,
            )
        }),
{
    let (frames, consumed) = spec_decode(buf.skip(offset)).unwrap();
    assert(buf.skip(offset).skip(consumed) =~= buf.skip(offset + consumed));
}

/// Apply every complete message at the front of `buf` to `window`, in
/// order, and keep only the incomplete remainder in `buf`. Rejected
/// windows leave the window as it was and are returned, in order.
pub fn drain_messages(window: &mut BeatWindow, buf: &mut Vec<u8>) -> (errors: Vec<UpdateError>)
    ensures
        final(buf)@ == old(buf)@.skip(split_messages(old(buf)@).1),
        spec_decode(final(buf)@) is None,
        (final(window)@, errors@) == apply_windows(old(window)@, split_messages(old(buf)@).0),
{
    let ghost start = window@;
    let ghost bytes = buf@;
    let ghost mut taken: Seq<Seq<u64>> = Seq::empty();
    let mut errors: Vec<UpdateError> = Vec::new();
    let len = buf.len();
    let mut offset: usize = 0;
    assert(bytes.skip(0) =~= bytes);
    assert(taken + split_messages(bytes).0 =~= split_messages(bytes).0);
    loop
        invariant
            buf@ == bytes,
            len == bytes.len(),
            offset <= len,
            split_messages(bytes) == (
                taken + split_messages(bytes.skip(offset as int)).0,
                offset + split_messages(bytes.skip(offset as int)).1,
            ),
            (window@, errors@) == apply_windows(start, taken),
        ensures
            buf@ == bytes,
            offset <= len,
            spec_decode(bytes.skip(offset as int)) is None,
            split_messages(bytes) == (taken, offset as int),
            (window@, errors@) == apply_windows(start, taken),
        decreases len - offset,
    {
        let rest = slice_subrange(buf.as_slice(), offset, len);
        assert(rest@ =~= bytes.skip(offset as int));
        match decode(rest) {
            Ok(Some((frames, consumed))) => {
                proof {
                    lemma_split_step(bytes, offset as int);
                    assert(taken.push(frames@).drop_last() =~= taken);
                    assert(taken + split_messages(bytes.skip(offset as int)).0 =~= taken.push(
                        frames@,
                    ) + split_messages(bytes.skip(offset + consumed)).0);
                }
                match window.update(frames.as_slice()) {
                    Ok(()) => {},
                    Err(e) => {
                        errors.push(e);
                    },
                }
                proof {
                    taken = taken.push(frames@);
                }
                offset = offset + consumed;
            },
            _ => {
                assert(split_messages(bytes.skip(offset as int)).0 =~= Seq::<Seq<u64>>::empty());
                assert(taken + Seq::<Seq<u64>>::empty() =~= taken);
                break;
            },
        }
    }
    let remainder = slice_to_vec(slice_subrange(buf.as_slice(), offset, len));
    *buf = remainder;
    errors
}

/// A read-only copy of the window at one moment.
#[derive(Debug, Clone)]
pub struct WindowSnapshot {
    pub frames: Vec<u64>,
}

/// What the shared lock may hold: any window (a [`BeatWindow`] always
/// keeps its frames strictly increasing).
pub struct HeldWindow;

impl RwLockPredicate<BeatWindow> for HeldWindow {
    open spec fn inv(self, v: BeatWindow) -> bool {
        true
    }
}

/// The window shared by a [`Client`] and the task that feeds it.
type SharedWindow = Arc<RwLock<BeatWindow, HeldWindow>>;

/// `std::sync::Arc::clone`: another handle to the same allocation, so the
/// result is the same shared lock as `shared`.
#[verifier::external_body]
fn share(shared: &Arc<RwLock<BeatWindow, HeldWindow>>) -> (r: Arc<RwLock<BeatWindow, HeldWindow>>)
    ensures
        r == *shared,
{
    Arc::clone(shared)
}

/// The consumer's read API over a window shared with a receiving task.
///
/// Every read takes the lock, reads, and releases it before returning; no
/// lock is ever held across a call, so no read can wait on its own thread.
pub struct Client {
    window: SharedWindow,
}

/// The receiving task's handle on a client's window: its only operation
/// locks the window, applies the complete messages of a buffer to it and
/// releases the lock.
pub struct WindowFeed {
    window: SharedWindow,
}

impl WindowFeed {
    /// The lock this feed writes.
    pub closed spec fn shared(&self) -> Arc<RwLock<BeatWindow, HeldWindow>> {
        self.window
    }

    /// Apply every complete message at the front of `buf` to the shared
    /// window, as [`drain_messages`] does, under the write lock. `buf` keeps
    /// only the incomplete remainder; the rejections are returned in order,
    /// as they arise from the window the lock held when it was taken.
    pub fn drain(&self, buf: &mut Vec<u8>) -> (errors: Vec<UpdateError>)
        ensures
            final(buf)@ == old(buf)@.skip(split_messages(old(buf)@).1),
            spec_decode(final(buf)@) is None,
            exists|w: Seq<u64>|
                strictly_increasing(w) && errors@ == apply_windows(w, split_messages(old(buf)@).0).1,
    {
        let (mut window, handle) = self.window.acquire_write();
        let ghost start = window@;
        let _frames = window.frames();
        let errors = drain_messages(&mut window, buf);
        handle.release_write(window);
        proof {
            assert(strictly_increasing(start)
                && errors@ == apply_windows(start, split_messages(old(buf)@).0).1);
        }
        errors
    }
}

impl Client {
    /// The lock, shared with the receiving task, that holds the window.
    pub closed spec fn shared(&self) -> Arc<RwLock<BeatWindow, HeldWindow>> {
        self.window
    }

    /// A client with an empty window. The task that receives windows
    /// from the producer is given [`Client::feed`].
    pub fn new() -> Client {
        Client { window: Arc::new(RwLock::new(BeatWindow::new(), Ghost(HeldWindow))) }
    }

    /// The handle through which the receiving task updates this client's
    /// window: it writes the very lock this client reads.
    pub fn feed(&self) -> (f: WindowFeed)
        ensures
            f.shared() == self.shared(),
    {
        WindowFeed { window: share(&self.window) }
    }

    /// Frames per beat between the two most recent beats of the window at
    /// this moment, `None` when fewer than two beats are known. Which window
    /// that is depends on the receiving task; the answer is that of some
    /// strictly increasing window.
    pub fn frames_per_beat(&self) -> (r: Option<u64>)
        ensures
            exists|w: Seq<u64>| strictly_increasing(w) && r == last_beat_gap(w),
            r matches Some(d) ==> d > 0,
    {
        let handle = self.window.acquire_read();
        let window = handle.borrow();
        let r = window.frames_per_beat();
        let ghost seen = window@;
        handle.release_read();
        proof {
            assert(strictly_increasing(seen) && r == last_beat_gap(seen));
        }
        r
    }

    /// The segment of the window at this moment that contains `frame`,
    /// as [`BeatWindow::segment_at`] gives it for some strictly increasing
    /// window.
    pub fn segment_at(&self, frame: u64) -> (r: Option<(usize, u64, u64)>)
        ensures
            exists|w: Seq<u64>| strictly_increasing(w) && r == segment_containing(w, frame),
            r matches Some((i, start, end)) ==> start <= frame <= end,
    {
        let handle = self.window.acquire_read();
        let window = handle.borrow();
        let r = window.segment_at(frame);
        let ghost seen = window@;
        handle.release_read();
        proof {
            assert(strictly_increasing(seen) && r == segment_containing(seen, frame));
        }
        r
    }

    /// A copy of the window at this moment; its frames strictly increase.
    pub fn snapshot(&self) -> (s: WindowSnapshot)
        ensures
            strictly_increasing(s.frames@),
    {
        let handle = self.window.acquire_read();
        let frames = slice_to_vec(handle.borrow().frames());
        handle.release_read();
        WindowSnapshot { frames }
    }

    /// True iff the window held no beat at this moment.
    pub fn is_empty(&self) -> bool {
        let handle = self.window.acquire_read();
        let r = handle.borrow().is_empty();
        handle.release_read();
        r
    }
}

impl Default for Client {
    fn default() -> Self {
        Self::new()
    }
}

} // verus!
