//! `BeatWindow`: the consumer-side copy of the most recent beat window.
//!
//! The window is a strictly increasing sequence of absolute frame
//! positions. [`BeatWindow::update`] adopts a freshly received window only
//! when it respects the protocol guarantees: the incoming frames are
//! strictly increasing, the high end does not move backward, and wherever
//! the two windows overlap they agree exactly.

use vstd::prelude::*;
use vstd::slice::slice_to_vec;

verus! {

/// Every frame is smaller than every frame after it.
pub open spec fn strictly_increasing(s: Seq<u64>) -> bool {
    forall|i: int, j: int| 0 <= i < j < s.len() ==> s[i] < s[j]
}

/// Reasons a window update may be rejected.
#[derive(Debug, PartialEq, Eq, Structural)]
pub enum UpdateError {
    /// The incoming window's frames are not strictly increasing.
    NotMonotonic,
    /// Where the windows overlap, a previously published frame differs
    /// from the incoming one (`previous` is 0 when the incoming low frame
    /// falls inside the current range without being one of its beats).
    ImmutabilityViolation { previous: u64, incoming: u64 },
    /// The incoming window's high end is below the current one.
    BackwardMove { current_high: u64, incoming_high: u64 },
}

/// The first index at which `s` holds `x` (meaningful when `s` contains `x`).
pub open spec fn first_index_of(s: Seq<u64>, x: u64) -> int {
    choose|p: int| 0 <= p < s.len() && s[p] == x && forall|q: int| 0 <= q < p ==> s[q] != x
}

/// How many entries of `incoming` line up with `current` from index `pos` on.
pub open spec fn overlap_len(current: Seq<u64>, pos: int, incoming: Seq<u64>) -> int {
    if current.len() - pos <= incoming.len() {
        current.len() - pos
    } else {
        incoming.len() as int
    }
}

/// Aligned at `pos`, the two windows disagree at offset `i`.
pub open spec fn disagree_at(current: Seq<u64>, pos: int, incoming: Seq<u64>, i: int) -> bool {
    0 <= i < overlap_len(current, pos, incoming) && current[pos + i] != incoming[i]
}

/// The first offset at which the aligned windows disagree.
pub open spec fn first_disagreement(current: Seq<u64>, pos: int, incoming: Seq<u64>) -> int {
    choose|i: int|
        disagree_at(current, pos, incoming, i) && forall|j: int|
            0 <= j < i ==> !disagree_at(current, pos, incoming, j)
}

/// What [`BeatWindow::update`] answers when the window holds `current` and
/// `incoming` arrives.
pub open spec fn update_outcome(current: Seq<u64>, incoming: Seq<u64>) -> Result<(), UpdateError> {
    if !strictly_increasing(incoming) {
        Err(UpdateError::NotMonotonic)
    } else if current.len() == 0 || incoming.len() == 0 {
        Ok(())
    } else if incoming.last() < current.last() {
        Err(UpdateError::BackwardMove { current_high: current.last(), incoming_high: incoming.last() })
    } else if current.contains(incoming[0]) {
        let pos = first_index_of(current, incoming[0]);
        if exists|i: int| disagree_at(current, pos, incoming, i) {
            let i = first_disagreement(current, pos, incoming);
            Err(UpdateError::ImmutabilityViolation { previous: current[pos + i], incoming: incoming[i] })
        } else {
            Ok(())
        }
    } else if incoming[0] <= current.last() {
        Err(UpdateError::ImmutabilityViolation { previous: 0, incoming: incoming[0] })
    } else {
        Ok(())
    }
}

/// The window after `update` with `incoming` on `current`: the incoming
/// window when it is accepted and carries beats; otherwise `current` (a
/// rejected window changes nothing, and an empty one carries no facts).
pub open spec fn after_update(current: Seq<u64>, incoming: Seq<u64>) -> Seq<u64> {
    if update_outcome(current, incoming) is Ok && incoming.len() > 0 {
        incoming
    } else {
        current
    }
}

/// Frames per beat between the last two beats of `s`, when it has two.
pub open spec fn last_beat_gap(s: Seq<u64>) -> Option<u64> {
    if s.len() < 2 {
        None
    } else {
        Some((s[s.len() - 1] - s[s.len() - 2]) as u64)
    }
}

/// Segment `i` of `s` (from `s[i]` to `s[i + 1]`) is the one that holds
/// `frame`: the last segment that starts at or before it.
pub open spec fn is_segment_of(s: Seq<u64>, frame: u64, i: int) -> bool {
    &&& 0 <= i < s.len() - 1
    &&& s[i] <= frame <= s[i + 1]
    &&& (i + 1 < s.len() - 1 ==> frame < s[i + 1])
}

/// The segment of `s` that holds `frame`, as `(index, start, end)`, or
/// `None` when `s` is empty or `frame` lies outside `[s[0], s[last]]`. A
/// one-beat window holds only its own frame, in the degenerate segment
/// `(0, s[0], s[0])`.
pub open spec fn segment_containing(s: Seq<u64>, frame: u64) -> Option<(usize, u64, u64)> {
    if s.len() == 0 || frame < s[0] || frame > s.last() {
        None
    } else if s.len() == 1 {
        Some((0usize, s[0], s[0]))
    } else {
        let i = choose|i: int| is_segment_of(s, frame, i);
        Some((i as usize, s[i], s[i + 1]))
    }
}

/// In a strictly increasing window at most one segment holds a frame.
pub proof fn lemma_segment_unique(s: Seq<u64>, frame: u64, i: int, j: int)
    requires
        strictly_increasing(s),
        is_segment_of(s, frame, i),
        is_segment_of(s, frame, j),
    ensures
        i == j,
{
    if i < j {
        assert(s[i + 1] <= s[j]) by {
            if i + 1 < j {
                assert(s[i + 1] < s[j]);
            }
        }
    } else if j < i {
        assert(s[j + 1] <= s[i]) by {
            if j + 1 < i {
                assert(s[j + 1] < s[i]);
            }
        }
    }
}

/// A sliding window of recently published and near-future beat frames.
#[derive(Debug)]
pub struct BeatWindow {
    frames: Vec<u64>,
}

impl View for BeatWindow {
    type V = Seq<u64>;

    closed spec fn view(&self) -> Seq<u64> {
        self.frames@
    }
}

impl BeatWindow {
    #[verifier::type_invariant]
    spec fn frames_increase(self) -> bool {
        strictly_increasing(self.frames@)
    }

    /// An empty window: no timing information until the first update.
    pub fn new() -> (w: BeatWindow)
        ensures
            w@ == Seq::<u64>::empty(),
    {
        BeatWindow { frames: Vec::new() }
    }

    /// True if no window has been received yet.
    pub fn is_empty(&self) -> (r: bool)
        ensures
            r == (self@.len() == 0),
    {
        self.frames.len() == 0
    }

    /// Number of beat frames currently held.
    pub fn len(&self) -> (n: usize)
        ensures
            n == self@.len(),
    {
        self.frames.len()
    }

    /// The frames themselves, oldest first; always strictly increasing.
    pub fn frames(&self) -> (s: &[u64])
        ensures
            s@ == self@,
            strictly_increasing(s@),
    {
        proof {
            use_type_invariant(self);
        }
        self.frames.as_slice()
    }

    /// Frames per beat between the two most recent beats, `None` when fewer
    /// than two beats are known.
    pub fn frames_per_beat(&self) -> (r: Option<u64>)
        ensures
            r == last_beat_gap(self@),
            r matches Some(d) ==> d > 0,
            strictly_increasing(self@),
    {
        proof {
            use_type_invariant(self);
        }
        let n = self.frames.len();
        if n < 2 {
            return None;
        }
        Some(self.frames[n - 1] - self.frames[n - 2])
    }

    /// The segment `(i, frames[i], frames[i + 1])` that contains `frame`:
    /// the last `i` below the final index with `frames[i] <= frame`. A
    /// one-beat window gives `(0, frames[0], frames[0])` at its own frame.
    /// `None` when the window is empty or `frame` lies outside
    /// `[frames[0], frames[last]]`.
    pub fn segment_at(&self, frame: u64) -> (r: Option<(usize, u64, u64)>)
        ensures
            r == segment_containing(self@, frame),
            strictly_increasing(self@),
            r is Some <==> (self@.len() >= 1 && self@[0] <= frame <= self@.last()),
            r matches Some((i, start, end)) ==> {
                &&& start == self@[i as int]
                &&& start <= frame <= end
                &&& self@.len() == 1 ==> i == 0 && end == start
                &&& self@.len() >= 2 ==> {
                    &&& 0 <= i < self@.len() - 1
                    &&& end == self@[i + 1]
                    &&& start < end
                    &&& (i + 1 < self@.len() - 1 ==> frame < end)
                }
            },
    {
        proof {
            use_type_invariant(self);
        }
        let n = self.frames.len();
        if n == 0 {
            return None;
        }
        if frame < self.frames[0] || frame > self.frames[n - 1] {
            return None;
        }
        if n == 1 {
            return Some((0, self.frames[0], self.frames[0]));
        }
        let mut lo: usize = 0;
        let mut hi: usize = n - 1;
        while lo + 1 < hi
            invariant
                n == self.frames@.len(),
                n >= 2,
                lo < hi <= n - 1,
                self.frames@[lo as int] <= frame <= self.frames@[hi as int],
                hi < n - 1 ==> frame < self.frames@[hi as int],
            decreases hi - lo,
        {
            let mid = lo + (hi - lo) / 2;
            if self.frames[mid] <= frame {
                lo = mid;
            } else {
                hi = mid;
            }
        }
        proof {
            let s = self.frames@;
            assert(is_segment_of(s, frame, lo as int));
            let c = choose|i: int| is_segment_of(s, frame, i);
            lemma_segment_unique(s, frame, lo as int, c);
        }
        Some((lo, self.frames[lo], self.frames[lo + 1]))
    }

    /// Apply a freshly received window.
    ///
    /// The answer is [`update_outcome`] of the current and incoming frames;
    /// on success the window becomes `incoming`, on failure it is unchanged.
    /// An empty incoming window carries no facts: it is accepted and the
    /// known beats are kept.
    #[verifier::loop_isolation(false)]
    #[verifier::spinoff_prover]
    #[verifier::rlimit(40)]
    pub fn update(&mut self, incoming: &[u64]) -> (result: Result<(), UpdateError>)
        ensures
            result == update_outcome(old(self)@, incoming@),
            final(self)@ == after_update(old(self)@, incoming@),
            result is Ok && incoming@.len() > 0 ==> final(self)@ == incoming@,
            result is Err || incoming@.len() == 0 ==> final(self)@ == old(self)@,
            strictly_increasing(final(self)@),
    {
        proof {
            use_type_invariant(&*self);
        }
        let n = incoming.len();
        let mut k: usize = 1;
        while k < n
            invariant
                n == incoming@.len(),
                1 <= k,
                k <= n || n == 0,
                forall|i: int, j: int| 0 <= i < j < k && j < n ==> incoming@[i] < incoming@[j],
            decreases n - k,
        {
            if incoming[k] <= incoming[k - 1] {
                return Err(UpdateError::NotMonotonic);
            }
            k = k + 1;
        }
        assert(strictly_increasing(incoming@));
        if n == 0 {
            return Ok(());
        }
        let len = self.frames.len();
        if len == 0 {
            let adopted = slice_to_vec(incoming);
            self.frames = adopted;
            return Ok(());
        }
        let current_high = self.frames[len - 1];
        let incoming_high = incoming[n - 1];
        if incoming_high < current_high {
            return Err(UpdateError::BackwardMove { current_high, incoming_high });
        }
        let incoming_low = incoming[0];
        let mut pos: usize = 0;
        while pos < len && self.frames[pos] != incoming_low
            invariant
                len == self.frames@.len(),
                pos <= len,
                forall|q: int| 0 <= q < pos ==> self.frames@[q] != incoming_low,
            decreases len - pos,
        {
            pos = pos + 1;
        }
        if pos < len {
            let ghost cur = self.frames@;
            assert(cur.contains(incoming_low));
            assert(first_index_of(cur, incoming_low) == pos as int);
            let overlap = if len - pos <= n {
                len - pos
            } else {
                n
            };
            let mut i: usize = 0;
            while i < overlap
                invariant
                    cur == self.frames@,
                    len == cur.len(),
                    n == incoming@.len(),
                    pos < len,
                    overlap == overlap_len(cur, pos as int, incoming@),
                    i <= overlap,
                    forall|j: int| 0 <= j < i ==> !disagree_at(cur, pos as int, incoming@, j),
                decreases overlap - i,
            {
                let previous = self.frames[pos + i];
                let inc = incoming[i];
                if previous != inc {
                    proof {
                        assert(disagree_at(cur, pos as int, incoming@, i as int));
                        let f = first_disagreement(cur, pos as int, incoming@);
                        assert(f == i as int);
                    }
                    return Err(UpdateError::ImmutabilityViolation { previous, incoming: inc });
                }
                i = i + 1;
            }
            assert(!exists|j: int| disagree_at(cur, pos as int, incoming@, j));
        } else if incoming_low <= current_high {
            return Err(UpdateError::ImmutabilityViolation { previous: 0, incoming: incoming_low });
        }
        let adopted = slice_to_vec(incoming);
        self.frames = adopted;
        Ok(())
    }
}

impl Clone for BeatWindow {
    fn clone(&self) -> (w: Self)
        ensures
            w@ == self@,
    {
        proof {
            use_type_invariant(self);
        }
        let frames = slice_to_vec(self.frames.as_slice());
        BeatWindow { frames }
    }
}

impl Default for BeatWindow {
    fn default() -> (w: Self)
        ensures
            w@ == Seq::<u64>::empty(),
    {
        Self::new()
    }
}

} // verus!
