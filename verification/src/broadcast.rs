//! `BeatPublisher`: the producer-side sliding window of published beats.
//!
//! Pure logic, no I/O: it keeps the most recent `capacity` beat frames and
//! `record_beat` returns the window the producer should broadcast next.

use crate::window::strictly_increasing;
use vstd::prelude::*;

verus! {

/// The last `capacity` entries of `s` (all of `s` when it is shorter).
pub open spec fn keep_last(s: Seq<u64>, capacity: nat) -> Seq<u64> {
    if s.len() > capacity {
        s.subrange(s.len() - capacity, s.len() as int)
    } else {
        s
    }
}

/// The window after recording `frame` on top of `window`.
pub open spec fn slide(window: Seq<u64>, frame: u64, capacity: nat) -> Seq<u64> {
    keep_last(window.push(frame), capacity)
}

/// `frame` may be recorded after `window`: the window is empty or `frame`
/// lies strictly after its last beat.
pub open spec fn moves_forward(window: Seq<u64>, frame: u64) -> bool {
    window.len() == 0 || window.last() < frame
}

/// Sliding-window publisher holding at most `capacity` beat frames.
#[derive(Debug)]
pub struct BeatPublisher {
    capacity: usize,
    frames: Vec<u64>,
}

impl View for BeatPublisher {
    type V = Seq<u64>;

    closed spec fn view(&self) -> Seq<u64> {
        self.frames@
    }
}

impl BeatPublisher {
    #[verifier::type_invariant]
    spec fn well_formed(self) -> bool {
        &&& self.capacity >= 2
        &&& self.frames@.len() <= self.capacity
        &&& strictly_increasing(self.frames@)
    }

    /// The most beats the window may hold.
    pub closed spec fn capacity(&self) -> nat {
        self.capacity as nat
    }

    /// A publisher that keeps at most `capacity` beats; a window needs two
    /// beats to express frames per beat, hence `capacity >= 2`.
    pub fn new(capacity: usize) -> (p: BeatPublisher)
        requires
            capacity >= 2,
        ensures
            p@ == Seq::<u64>::empty(),
            p.capacity() == capacity,
    {
        BeatPublisher { capacity, frames: Vec::with_capacity(capacity) }
    }

    /// Record a beat at absolute frame `frame` and return the window to
    /// broadcast: the previous window with `frame` appended, trimmed to the
    /// last `capacity` beats. The transport only moves forward, so `frame`
    /// must lie after the last recorded beat.
    pub fn record_beat(&mut self, frame: u64) -> (w: &[u64])
        requires
            moves_forward(old(self)@, frame),
        ensures
            final(self)@ == slide(old(self)@, frame, old(self).capacity()),
            final(self).capacity() == old(self).capacity(),
            w@ == final(self)@,
            final(self)@.len() <= final(self).capacity(),
            final(self).capacity() >= 2,
            strictly_increasing(final(self)@),
            final(self)@.len() >= 1,
            final(self)@.last() == frame,
    {
        proof {
            use_type_invariant(&*self);
        }
        let ghost before = self.frames@;
        let mut frames: Vec<u64> = Vec::new();
        std::mem::swap(&mut frames, &mut self.frames);
        frames.push(frame);
        if frames.len() > self.capacity {
            let _dropped = frames.remove(0);
            proof {
                let pushed = before.push(frame);
                assert(frames@ =~= pushed.subrange(pushed.len() - self.capacity, pushed.len() as int));
            }
        }
        self.frames = frames;
        self.frames.as_slice()
    }

    /// The current window; empty before the first `record_beat`.
    pub fn window(&self) -> (w: &[u64])
        ensures
            w@ == self@,
            self.capacity() >= 2,
            self@.len() <= self.capacity(),
            strictly_increasing(self@),
    {
        proof {
            use_type_invariant(self);
        }
        self.frames.as_slice()
    }

    /// True if no beat has been recorded yet.
    pub fn is_empty(&self) -> (r: bool)
        ensures
            r == (self@.len() == 0),
    {
        self.frames.len() == 0
    }
}

} // verus!
