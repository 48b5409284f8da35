//! The producer's decisions, separated from its network shell.
//!
//! The shell receives beat frames from a synchronous API and new client
//! connections from a listener. For each event it asks a [`Broadcaster`]
//! what to do: which beats to record (non-monotonic ones are dropped rather
//! than allowed to reach [`BeatPublisher::record_beat`]) and which bytes to
//! send to a new client or to every client.

use crate::broadcast::{moves_forward, slide, BeatPublisher};
use crate::window::strictly_increasing;
use crate::wire::{encode, spec_encode, MAX_WINDOW_LEN};
use vstd::prelude::*;

verus! {

/// Window capacity used when none is given: fits one bar of any common
/// meter plus the previous beat.
pub const DEFAULT_CAPACITY: usize = 8;

/// The window after offering `frames` one by one: each frame that moves the
/// window forward is recorded, the others are dropped.
pub open spec fn offer_all(window: Seq<u64>, frames: Seq<u64>, capacity: nat) -> Seq<u64>
    decreases frames.len(),
{
    if frames.len() == 0 {
        window
    } else {
        let before = offer_all(window, frames.drop_last(), capacity);
        if moves_forward(before, frames.last()) {
            slide(before, frames.last(), capacity)
        } else {
            before
        }
    }
}

/// Every beat accepted so far, `history`, followed by those of `frames`
/// that are accepted when offered in order: a frame is appended when it
/// lies after the last accepted beat and dropped otherwise.
pub open spec fn accept_all(history: Seq<u64>, frames: Seq<u64>) -> Seq<u64>
    decreases frames.len(),
{
    if frames.len() == 0 {
        history
    } else {
        let before = accept_all(history, frames.drop_last());
        if moves_forward(before, frames.last()) {
            before.push(frames.last())
        } else {
            before
        }
    }
}

/// Some frame of `frames` is recorded when they are offered in order.
pub open spec fn any_recorded(window: Seq<u64>, frames: Seq<u64>, capacity: nat) -> bool
    decreases frames.len(),
{
    if frames.len() == 0 {
        false
    } else {
        any_recorded(window, frames.drop_last(), capacity) || moves_forward(
            offer_all(window, frames.drop_last(), capacity),
            frames.last(),
        )
    }
}

/// The producer's state: the publisher whose window it broadcasts.
pub struct Broadcaster {
    publisher: BeatPublisher,
}

impl Broadcaster {
    /// The window the producer currently publishes.
    pub closed spec fn window(&self) -> Seq<u64> {
        self.publisher@
    }

    /// The most beats a published window holds.
    pub closed spec fn capacity(&self) -> nat {
        self.publisher.capacity()
    }

    /// A producer that has published nothing yet.
    pub fn new(capacity: usize) -> (b: Broadcaster)
        requires
            capacity >= 2,
        ensures
            b.window() == Seq::<u64>::empty(),
            b.capacity() == capacity,
    {
        Broadcaster { publisher: BeatPublisher::new(capacity) }
    }

    /// The current window: strictly increasing, at most `capacity` beats.
    pub fn window_frames(&self) -> (w: &[u64])
        ensures
            w@ == self.window(),
            strictly_increasing(self.window()),
            self.window().len() <= self.capacity(),
            self.capacity() >= 2,
    {
        self.publisher.window()
    }

    /// Offer one beat from the synchronous API. It is recorded when it moves
    /// the window forward and dropped otherwise; the answer says which.
    pub fn offer_beat(&mut self, frame: u64) -> (recorded: bool)
        ensures
            recorded == moves_forward(old(self).window(), frame),
            final(self).window() == (if recorded {
                slide(old(self).window(), frame, old(self).capacity())
            } else {
                old(self).window()
            }),
            final(self).capacity() == old(self).capacity(),
            strictly_increasing(final(self).window()),
            final(self).window().len() <= final(self).capacity(),
            final(self).capacity() >= 2,
            recorded ==> final(self).window().len() >= 1 && final(self).window().last() == frame,
    {
        let w = self.publisher.window();
        let n = w.len();
        if n == 0 || w[n - 1] < frame {
            let _window = self.publisher.record_beat(frame);
            true
        } else {
            false
        }
    }

    /// Offer a batch of beats in order. When at least one is recorded the
    /// answer is the message to send to every client (none when the window
    /// is too long for the wire format); otherwise nothing is sent.
    pub fn offer_beats(&mut self, frames: &[u64]) -> (message: Option<Vec<u8>>)
        ensures
            final(self).window() == offer_all(old(self).window(), frames@, old(self).capacity()),
            final(self).capacity() == old(self).capacity(),
            message is Some <==> (any_recorded(old(self).window(), frames@, old(self).capacity())
                && final(self).window().len() <= MAX_WINDOW_LEN),
            message matches Some(bytes) ==> bytes@ == spec_encode(final(self).window()),
            message is Some ==> final(self).window().len() >= 1,
            strictly_increasing(final(self).window()),
            final(self).window().len() <= final(self).capacity(),
            final(self).capacity() >= 2,
    {
        let _current = self.publisher.window();
        let ghost start = self.window();
        let ghost capacity = self.capacity();
        let mut recorded_any = false;
        let mut i: usize = 0;
        while i < frames.len()
            invariant
                i <= frames@.len(),
                self.capacity() == capacity,
                capacity >= 2,
                strictly_increasing(self.window()),
                self.window().len() <= capacity,
                recorded_any ==> self.window().len() >= 1,
                self.window() == offer_all(start, frames@.take(i as int), capacity),
                recorded_any == any_recorded(start, frames@.take(i as int), capacity),
            decreases frames@.len() - i,
        {
            proof {
                let next = frames@.take(i + 1);
                assert(next.drop_last() =~= frames@.take(i as int));
            }
            let recorded = self.offer_beat(frames[i]);
            recorded_any = recorded_any || recorded;
            i = i + 1;
        }
        assert(frames@.take(frames@.len() as int) =~= frames@);
        if recorded_any {
            self.window_message()
        } else {
            None
        }
    }

    /// The current window as a message, or `None` when it is too long for
    /// the wire format.
    pub fn window_message(&self) -> (message: Option<Vec<u8>>)
        ensures
            message is Some <==> self.window().len() <= MAX_WINDOW_LEN,
            message matches Some(bytes) ==> bytes@ == spec_encode(self.window()),
    {
        match encode(self.publisher.window()) {
            Ok(bytes) => Some(bytes),
            Err(_) => None,
        }
    }

    /// What a newly connected client is sent before any new beat: the
    /// current window, unless nothing has been published yet.
    pub fn seed_message(&self) -> (message: Option<Vec<u8>>)
        ensures
            message is Some <==> (self.window().len() > 0 && self.window().len()
                <= MAX_WINDOW_LEN),
            message matches Some(bytes) ==> bytes@ == spec_encode(self.window()),
    {
        if self.publisher.is_empty() {
            None
        } else {
            self.window_message()
        }
    }
}

} // verus!
