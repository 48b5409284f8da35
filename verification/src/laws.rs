//! Properties of the protocol that relate several functions to each other.
//!
//! The publisher's history is the sequence of every beat it ever recorded;
//! each published window is a contiguous piece of it. The laws below say
//! that the publisher's window is always the tail of that history, that a
//! consumer accepts every later window cut from the same history, that an
//! accepted update never contradicts a frame the consumer already knew, and
//! that draining received bytes does not depend on how they were split
//! into reads.

use crate::broadcast::{keep_last, moves_forward, slide};
use crate::client::{apply_windows, split_messages};
use crate::controller::{accept_all, offer_all};
use crate::window::{
    disagree_at, first_index_of, overlap_len, strictly_increasing, update_outcome,
};
use crate::wire::{spec_decode, spec_encode, MAX_WINDOW_LEN};
use vstd::prelude::*;

verus! {

/// Recording a beat keeps the publisher's window equal to the last
/// `capacity` beats of everything it has recorded: if the window is the
/// tail of history `h`, after recording `frame` it is the tail of
/// `h` followed by `frame`.
pub proof fn lemma_window_is_tail_of_history(history: Seq<u64>, frame: u64, capacity: nat)
    requires
        capacity >= 1,
    ensures
        slide(keep_last(history, capacity), frame, capacity) == keep_last(
            history.push(frame),
            capacity,
        ),
{
    let w = keep_last(history, capacity);
    assert(slide(w, frame, capacity) =~= keep_last(history.push(frame), capacity));
}

/// Recording a beat moves the window forward: the new window is strictly
/// increasing, ends at the recorded frame (above the old high end), holds
/// at most `capacity` beats and keeps every retained old beat unchanged,
/// as a suffix of the old window followed by the new frame.
pub proof fn lemma_record_moves_forward(window: Seq<u64>, frame: u64, capacity: nat)
    requires
        strictly_increasing(window),
        moves_forward(window, frame),
        capacity >= 1,
    ensures
        ({
            let next = slide(window, frame, capacity);
            &&& strictly_increasing(next)
            &&& next.len() <= capacity
            &&& next.len() >= 1
            &&& next.last() == frame
            &&& window.len() > 0 ==> next.last() > window.last()
            &&& next == window.push(frame).subrange(
                window.push(frame).len() - next.len(),
                window.push(frame).len() as int,
            )
        }),
{
    let pushed = window.push(frame);
    assert(strictly_increasing(pushed));
    if pushed.len() <= capacity {
        assert(pushed.subrange(0, pushed.len() as int) =~= pushed);
    }
}

proof fn lemma_piece_index(h: Seq<u64>, a: int, b: int, x: u64, p: int)
    requires
        strictly_increasing(h),
        0 <= a <= b <= h.len(),
        0 <= p < b - a,
        h[a + p] == x,
    ensures
        first_index_of(h.subrange(a, b), x) == p,
{
    let s = h.subrange(a, b);
    assert(s[p] == x);
    assert(forall|q: int| 0 <= q < p ==> s[q] != x) by {
        assert forall|q: int| 0 <= q < p implies s[q] != x by {
            assert(h[a + q] < h[a + p]);
        }
    }
    let c = first_index_of(s, x);
    assert(0 <= c < s.len() && s[c] == x);
    if c != p {
        if c < p {
            assert(h[a + c] < h[a + p]);
        } else {
            assert(h[a + p] < h[a + c]);
        }
    }
}

/// A consumer holding any window `h[a..b]` of a strictly increasing beat
/// history accepts every later window `h[c..d]` (starting no earlier and
/// ending no earlier). In particular it accepts the window it already holds
/// and the next window the publisher sends, however far it slid.
#[verifier::spinoff_prover]
pub proof fn lemma_later_window_accepted(h: Seq<u64>, a: int, b: int, c: int, d: int)
    requires
        strictly_increasing(h),
        0 <= a <= b <= h.len(),
        a <= c <= d <= h.len(),
        b <= d,
    ensures
        update_outcome(h.subrange(a, b), h.subrange(c, d)) == Ok::<(), crate::window::UpdateError>(()),
{
    let current = h.subrange(a, b);
    let incoming = h.subrange(c, d);
    assert(strictly_increasing(incoming)) by {
        assert forall|i: int, j: int| 0 <= i < j < incoming.len() implies incoming[i] < incoming[j] by {
            assert(h[c + i] < h[c + j]);
        }
    }
    if current.len() == 0 || incoming.len() == 0 {
    } else {
        if b - 1 < d - 1 {
            assert(h[b - 1] < h[d - 1]);
        }
        assert(incoming.last() >= current.last());
        if c < b {
            assert(current[c - a] == incoming[0]);
            assert(current.contains(incoming[0]));
            lemma_piece_index(h, a, b, incoming[0], c - a);
            let pos = c - a;
            assert(!exists|i: int| disagree_at(current, pos, incoming, i));
        } else {
            assert(incoming[0] > current.last()) by {
                if c > b - 1 {
                    assert(h[b - 1] < h[c]);
                }
            }
            assert(!current.contains(incoming[0])) by {
                if current.contains(incoming[0]) {
                    let k = choose|k: int| 0 <= k < current.len() && current[k] == incoming[0];
                    if a + k < b - 1 {
                        assert(h[a + k] < h[b - 1]);
                    }
                }
            }
        }
    }
}

/// The window the publisher sends after recording `frame` is accepted by a
/// consumer that holds the publisher's previous window.
pub proof fn lemma_published_window_accepted(window: Seq<u64>, frame: u64, capacity: nat)
    requires
        strictly_increasing(window),
        moves_forward(window, frame),
    ensures
        update_outcome(window, slide(window, frame, capacity)) == Ok::<(), crate::window::UpdateError>(()),
{
    let h = window.push(frame);
    assert(strictly_increasing(h));
    let n = h.len() as int;
    let c = if h.len() > capacity { n - capacity } else { 0 };
    lemma_later_window_accepted(h, 0, window.len() as int, c, n);
    assert(h.subrange(0, window.len() as int) =~= window);
    assert(h.subrange(c, n) =~= slide(window, frame, capacity));
}

proof fn lemma_first_index(current: Seq<u64>, x: u64)
    requires
        strictly_increasing(current),
        current.contains(x),
    ensures
        0 <= first_index_of(current, x) < current.len(),
        current[first_index_of(current, x)] == x,
{
    let w = choose|k: int| 0 <= k < current.len() && current[k] == x;
    assert(forall|q: int| 0 <= q < w ==> current[q] != x) by {
        assert forall|q: int| 0 <= q < w implies current[q] != x by {
            assert(current[q] < current[w]);
        }
    }
}

/// An accepted update whose low frame is a known beat lines up with the
/// current window from that beat to its high end.
proof fn lemma_aligned_overlap(current: Seq<u64>, incoming: Seq<u64>)
    requires
        strictly_increasing(current),
        current.len() > 0,
        incoming.len() > 0,
        update_outcome(current, incoming) is Ok,
        current.contains(incoming[0]),
    ensures
        ({
            let pos = first_index_of(current, incoming[0]);
            &&& 0 <= pos < current.len()
            &&& current[pos] == incoming[0]
            &&& current.len() - pos <= incoming.len()
            &&& forall|i: int| 0 <= i < current.len() - pos ==> incoming[i] == current[pos + i]
        }),
{
    let n = current.len() as int;
    let m = incoming.len() as int;
    lemma_first_index(current, incoming[0]);
    let pos = first_index_of(current, incoming[0]);
    assert(!exists|i: int| disagree_at(current, pos, incoming, i));
    assert(overlap_len(current, pos, incoming) == n - pos) by {
        if m < n - pos {
            assert(!disagree_at(current, pos, incoming, m - 1));
            assert(current[pos + m - 1] < current[n - 1]);
        }
    }
    assert forall|i: int| 0 <= i < n - pos implies incoming[i] == current[pos + i] by {
        assert(!disagree_at(current, pos, incoming, i));
    }
}

/// An accepted update never contradicts what the consumer knew: the high
/// end does not move back, every known beat at or above the new low end is
/// still in the window, and every new beat at or below the old high end was
/// already known.
pub proof fn lemma_accepted_update_keeps_known_frames(current: Seq<u64>, incoming: Seq<u64>)
    requires
        strictly_increasing(current),
        current.len() > 0,
        incoming.len() > 0,
        update_outcome(current, incoming) is Ok,
    ensures
        strictly_increasing(incoming),
        incoming.last() >= current.last(),
        forall|x: u64| current.contains(x) && x >= incoming[0] ==> incoming.contains(x),
        forall|x: u64| incoming.contains(x) && x <= current.last() ==> current.contains(x),
{
    let n = current.len() as int;
    let m = incoming.len() as int;
    if current.contains(incoming[0]) {
        lemma_aligned_overlap(current, incoming);
        let pos = first_index_of(current, incoming[0]);
        assert forall|x: u64| current.contains(x) && x >= incoming[0] implies incoming.contains(x) by {
            let k = choose|k: int| 0 <= k < n && current[k] == x;
            if k < pos {
                assert(current[k] < current[pos]);
            }
            assert(incoming[k - pos] == x);
        }
        assert forall|x: u64| incoming.contains(x) && x <= current.last() implies current.contains(x) by {
            let k = choose|k: int| 0 <= k < m && incoming[k] == x;
            if k < n - pos {
                assert(current[pos + k] == x);
            } else {
                assert(incoming[n - pos - 1] == current[n - 1]);
                assert(incoming[n - pos - 1] < incoming[k]);
            }
        }
    } else {
        assert(incoming[0] > current.last());
        assert forall|x: u64| current.contains(x) && x >= incoming[0] implies incoming.contains(x) by {
            let k = choose|k: int| 0 <= k < n && current[k] == x;
            if k < n - 1 {
                assert(current[k] < current[n - 1]);
            }
        }
        assert forall|x: u64| incoming.contains(x) && x <= current.last() implies current.contains(x) by {
            let k = choose|k: int| 0 <= k < m && incoming[k] == x;
            if k > 0 {
                assert(incoming[0] < incoming[k]);
            }
        }
    }
}

/// Two consumers holding windows cut from the same strictly increasing
/// history agree on every beat they both hold: equal frames sit at the same
/// place in the history.
pub proof fn lemma_consumers_agree(h: Seq<u64>, a1: int, b1: int, a2: int, b2: int, i: int, j: int)
    requires
        strictly_increasing(h),
        0 <= a1 <= b1 <= h.len(),
        0 <= a2 <= b2 <= h.len(),
        0 <= i < b1 - a1,
        0 <= j < b2 - a2,
        h.subrange(a1, b1)[i] == h.subrange(a2, b2)[j],
    ensures
        a1 + i == a2 + j,
{
    if a1 + i < a2 + j {
        assert(h[a1 + i] < h[a2 + j]);
    } else if a1 + i > a2 + j {
        assert(h[a2 + j] < h[a1 + i]);
    }
}

proof fn lemma_decode_prefix(x: Seq<u8>, y: Seq<u8>)
    requires
        spec_decode(x) is Some,
    ensures
        spec_decode(x + y) == spec_decode(x),
{
    let buf = x + y;
    let (frames, n) = spec_decode(x).unwrap();
    assert(buf[0] == x[0]);
    let decoded = Seq::new(buf[0] as nat, |i: int| crate::wire::frame_at(buf, i));
    assert forall|i: int| 0 <= i < frames.len() implies decoded[i] == frames[i] by {
        assert(buf.subrange(1 + 8 * i, 9 + 8 * i) =~= x.subrange(1 + 8 * i, 9 + 8 * i));
    }
    assert(decoded =~= frames);
}

proof fn lemma_split_len(buf: Seq<u8>)
    ensures
        0 <= split_messages(buf).1 <= buf.len(),
    decreases buf.len(),
{
    if let Some((frames, n)) = spec_decode(buf) {
        lemma_split_len(buf.skip(n));
    }
}

proof fn lemma_split_concat(a: Seq<u8>, b: Seq<u8>)
    ensures
        ({
            let (m1, c1) = split_messages(a);
            let (m2, c2) = split_messages(a.skip(c1) + b);
            &&& 0 <= c1 <= a.len()
            &&& split_messages(a + b) == (m1 + m2, c1 + c2)
        }),
    decreases a.len(),
{
    match spec_decode(a) {
        None => {
            assert(a.skip(0) =~= a);
            assert(Seq::<Seq<u64>>::empty() + split_messages(a + b).0 =~= split_messages(a + b).0);
        },
        Some((frames, n)) => {
            lemma_decode_prefix(a, b);
            let rest = a.skip(n);
            lemma_split_concat(rest, b);
            assert((a + b).skip(n) =~= rest + b);
            let (m1r, c1r) = split_messages(rest);
            assert(rest.skip(c1r) =~= a.skip(n + c1r));
            let (m2, c2) = split_messages(a.skip(n + c1r) + b);
            assert(seq![frames] + (m1r + m2) =~= (seq![frames] + m1r) + m2);
        },
    }
}

proof fn lemma_apply_concat(w: Seq<u64>, m1: Seq<Seq<u64>>, m2: Seq<Seq<u64>>)
    ensures
        ({
            let (w1, e1) = apply_windows(w, m1);
            let (w2, e2) = apply_windows(w1, m2);
            apply_windows(w, m1 + m2) == (w2, e1 + e2)
        }),
    decreases m2.len(),
{
    if m2.len() == 0 {
        assert(m1 + m2 =~= m1);
        let (w1, e1) = apply_windows(w, m1);
        assert(e1 + Seq::<crate::window::UpdateError>::empty() =~= e1);
    } else {
        lemma_apply_concat(w, m1, m2.drop_last());
        assert((m1 + m2).drop_last() =~= m1 + m2.drop_last());
        assert((m1 + m2).last() == m2.last());
        let (w1, e1) = apply_windows(w, m1);
        let (w2p, e2p) = apply_windows(w1, m2.drop_last());
        match update_outcome(w2p, m2.last()) {
            Ok(()) => {},
            Err(e) => {
                assert((e1 + e2p).push(e) =~= e1 + e2p.push(e));
            },
        }
    }
}

/// Draining does not depend on how the bytes were split into reads:
/// draining `a`, then draining what was left followed by `b`, consumes the
/// same messages, leaves the same remainder, reaches the same window and
/// reports the same rejections, in order, as draining `a + b` at once.
pub proof fn lemma_drain_in_two_reads(window: Seq<u64>, a: Seq<u8>, b: Seq<u8>)
    ensures
        ({
            let (m1, c1) = split_messages(a);
            let (w1, e1) = apply_windows(window, m1);
            let left = a.skip(c1) + b;
            let (m2, c2) = split_messages(left);
            let (w2, e2) = apply_windows(w1, m2);
            let (m, c) = split_messages(a + b);
            &&& (a + b).skip(c) == left.skip(c2)
            &&& apply_windows(window, m) == (w2, e1 + e2)
        }),
{
    lemma_split_concat(a, b);
    let (m1, c1) = split_messages(a);
    let (m2, c2) = split_messages(a.skip(c1) + b);
    lemma_apply_concat(window, m1, m2);
    lemma_split_len(a.skip(c1) + b);
    assert((a + b).skip(c1 + c2) =~= (a.skip(c1) + b).skip(c2));
}

/// Offering beats in batches keeps the producer's window equal to the last
/// `capacity` of all accepted beats: if the window is the tail of history
/// `h`, after offering `frames` it is the tail of `accept_all(h, frames)`.
/// Starting from an empty producer (`h` empty), every window it ever sends
/// is therefore the tail of the beats it accepted.
pub proof fn lemma_offered_window_is_tail_of_history(history: Seq<u64>, frames: Seq<u64>, capacity: nat)
    requires
        capacity >= 1,
    ensures
        offer_all(keep_last(history, capacity), frames, capacity) == keep_last(
            accept_all(history, frames),
            capacity,
        ),
    decreases frames.len(),
{
    if frames.len() > 0 {
        let init = frames.drop_last();
        let f = frames.last();
        lemma_offered_window_is_tail_of_history(history, init, capacity);
        let h1 = accept_all(history, init);
        let w1 = keep_last(h1, capacity);
        assert(moves_forward(w1, f) == moves_forward(h1, f)) by {
            if h1.len() > 0 {
                assert(w1.len() > 0);
                assert(w1.last() == h1.last());
            }
        }
        if moves_forward(h1, f) {
            lemma_window_is_tail_of_history(h1, f, capacity);
        }
    }
}

/// The accepted history stays strictly increasing, and every accepted beat
/// was either already in the history or offered: no other frame appears.
pub proof fn lemma_accepted_history(history: Seq<u64>, frames: Seq<u64>)
    requires
        strictly_increasing(history),
    ensures
        strictly_increasing(accept_all(history, frames)),
        forall|x: u64| accept_all(history, frames).contains(x) ==> history.contains(x)
            || frames.contains(x),
    decreases frames.len(),
{
    if frames.len() > 0 {
        let init = frames.drop_last();
        let f = frames.last();
        lemma_accepted_history(history, init);
        let h1 = accept_all(history, init);
        let h = accept_all(history, frames);
        assert forall|x: u64| h.contains(x) implies history.contains(x) || frames.contains(x) by {
            let k = choose|k: int| 0 <= k < h.len() && h[k] == x;
            if k < h1.len() {
                assert(h1.contains(x));
                if init.contains(x) {
                    let j = choose|j: int| 0 <= j < init.len() && init[j] == x;
                    assert(frames[j] == x);
                }
            } else {
                assert(frames[frames.len() - 1] == x);
            }
        }
    }
}

/// The messages for `windows`, one after the other.
pub open spec fn encode_all(windows: Seq<Seq<u64>>) -> Seq<u8>
    decreases windows.len(),
{
    if windows.len() == 0 {
        Seq::empty()
    } else {
        spec_encode(windows[0]) + encode_all(windows.drop_first())
    }
}

/// Concatenated messages split back into exactly the windows they carry:
/// draining the encodings of `windows` followed by an incomplete message
/// takes those windows, in order, and consumes exactly their bytes.
pub proof fn lemma_split_encodings(windows: Seq<Seq<u64>>, rest: Seq<u8>)
    requires
        forall|i: int| 0 <= i < windows.len() ==> #[trigger] windows[i].len() <= MAX_WINDOW_LEN,
        spec_decode(rest) is None,
    ensures
        split_messages(encode_all(windows) + rest) == (windows, encode_all(windows).len() as int),
    decreases windows.len(),
{
    if windows.len() == 0 {
        assert(encode_all(windows) + rest =~= rest);
        assert(windows =~= Seq::<Seq<u64>>::empty());
    } else {
        let w0 = windows[0];
        let tail = windows.drop_first();
        assert(windows[0].len() <= MAX_WINDOW_LEN);
        assert forall|i: int| 0 <= i < tail.len() implies #[trigger] tail[i].len() <= MAX_WINDOW_LEN by {
            assert(tail[i] == windows[i + 1]);
        }
        lemma_split_encodings(tail, rest);
        let after = encode_all(tail) + rest;
        let buf = encode_all(windows) + rest;
        assert(buf =~= spec_encode(w0) + after);
        crate::wire::lemma_decode_encode(w0, after);
        let n = 1 + 8 * w0.len() as int;
        assert(spec_encode(w0).len() == n) by {
            crate::wire::lemma_decode_encode(w0, Seq::empty());
            assert(spec_encode(w0) + Seq::<u8>::empty() =~= spec_encode(w0));
            crate::wire::lemma_encode_decode(spec_encode(w0));
        }
        assert(buf.skip(n) =~= after);
        assert(seq![w0] + tail =~= windows);
    }
}

/// The acceptance rule stated directly: over a strictly increasing window,
/// an update is accepted exactly when the incoming frames strictly increase
/// and either one of the windows is empty, or the high end does not move
/// back and the incoming window either starts after the current high end or
/// begins with a tail of the current window.
pub proof fn lemma_update_acceptance_rule(current: Seq<u64>, incoming: Seq<u64>)
    requires
        strictly_increasing(current),
    ensures
        update_outcome(current, incoming) is Ok <==> {
            &&& strictly_increasing(incoming)
            &&& (current.len() == 0 || incoming.len() == 0 || {
                &&& incoming.last() >= current.last()
                &&& (incoming[0] > current.last() || exists|p: int|
                    0 <= p < current.len() && current.len() - p <= incoming.len()
                        && #[trigger] incoming.subrange(0, current.len() - p) == current.subrange(
                        p,
                        current.len() as int,
                    ))
            })
        },
{
    let n = current.len() as int;
    if strictly_increasing(incoming) && n > 0 && incoming.len() > 0 && incoming.last()
        >= current.last() {
        if update_outcome(current, incoming) is Ok {
            if current.contains(incoming[0]) {
                lemma_aligned_overlap(current, incoming);
                let pos = first_index_of(current, incoming[0]);
                assert(incoming.subrange(0, n - pos) =~= current.subrange(pos, n));
            }
        } else if incoming[0] > current.last() || exists|p: int|
            0 <= p < current.len() && current.len() - p <= incoming.len()
                && #[trigger] incoming.subrange(0, current.len() - p) == current.subrange(
                p,
                current.len() as int,
            ) {
            lemma_accepted_by_rule(current, incoming);
        }
    }
}

proof fn lemma_accepted_by_rule(current: Seq<u64>, incoming: Seq<u64>)
    requires
        strictly_increasing(current),
        strictly_increasing(incoming),
        current.len() > 0,
        incoming.len() > 0,
        incoming.last() >= current.last(),
        incoming[0] > current.last() || exists|p: int|
            0 <= p < current.len() && current.len() - p <= incoming.len()
                && #[trigger] incoming.subrange(0, current.len() - p) == current.subrange(
                p,
                current.len() as int,
            ),
    ensures
        update_outcome(current, incoming) is Ok,
{
    let n = current.len() as int;
    if incoming[0] > current.last() {
        assert(!current.contains(incoming[0])) by {
            if current.contains(incoming[0]) {
                let k = choose|k: int| 0 <= k < n && current[k] == incoming[0];
                if k < n - 1 {
                    assert(current[k] < current[n - 1]);
                }
            }
        }
    } else {
        let p = choose|p: int|
            0 <= p < current.len() && current.len() - p <= incoming.len()
                && #[trigger] incoming.subrange(0, current.len() - p) == current.subrange(
                p,
                current.len() as int,
            );
        assert(incoming[0] == incoming.subrange(0, n - p)[0]);
        assert(current[p] == incoming[0]);
        lemma_piece_index(current, 0, n, incoming[0], p);
        assert(current.subrange(0, n) =~= current);
        assert forall|i: int| !disagree_at(current, p, incoming, i) by {
            if 0 <= i < overlap_len(current, p, incoming) {
                assert(incoming.subrange(0, n - p)[i] == current.subrange(p, n)[i]);
            }
        }
    }
}

proof fn lemma_accept_all_extends(history: Seq<u64>, frames: Seq<u64>)
    ensures
        accept_all(history, frames).len() >= history.len(),
        accept_all(history, frames).subrange(0, history.len() as int) == history,
    decreases frames.len(),
{
    if frames.len() > 0 {
        lemma_accept_all_extends(history, frames.drop_last());
        let h1 = accept_all(history, frames.drop_last());
        assert(h1.push(frames.last()).subrange(0, history.len() as int) =~= h1.subrange(
            0,
            history.len() as int,
        ));
    }
}

/// A consumer that holds the producer's window catches up with it: after
/// the producer offers `frames`, the message it sends (the encoding of its
/// new window, followed by the start of a later message) drains into
/// exactly that one window, which the consumer accepts and adopts with no
/// rejection. `capacity <= MAX_WINDOW_LEN` so that every window it holds
/// fits the wire format.
pub proof fn lemma_consumer_catches_up(window: Seq<u64>, frames: Seq<u64>, capacity: nat, rest: Seq<u8>)
    requires
        strictly_increasing(window),
        window.len() <= capacity,
        1 <= capacity <= MAX_WINDOW_LEN,
        spec_decode(rest) is None,
    ensures
        ({
            let next = offer_all(window, frames, capacity);
            let (messages, consumed) = split_messages(spec_encode(next) + rest);
            &&& messages == seq![next]
            &&& consumed == spec_encode(next).len()
            &&& apply_windows(window, messages) == (next, Seq::<crate::window::UpdateError>::empty())
        }),
{
    let n = window.len() as int;
    assert(keep_last(window, capacity) == window);
    lemma_offered_window_is_tail_of_history(window, frames, capacity);
    let h = accept_all(window, frames);
    lemma_accepted_history(window, frames);
    lemma_accept_all_extends(window, frames);
    let next = offer_all(window, frames, capacity);
    let m = h.len() as int;
    let c = if h.len() > capacity { m - capacity } else { 0 };
    assert(next =~= h.subrange(c, m));
    assert(h.subrange(0, n) == window);
    lemma_later_window_accepted(h, 0, n, c, m);
    assert(next.len() <= MAX_WINDOW_LEN);
    let single = seq![next];
    assert(single.drop_first() =~= Seq::<Seq<u64>>::empty());
    assert(single[0] == next);
    assert(encode_all(single.drop_first()) == Seq::<u8>::empty());
    assert(encode_all(single) == spec_encode(next) + Seq::<u8>::empty());
    assert(spec_encode(next) + Seq::<u8>::empty() =~= spec_encode(next));
    assert forall|i: int| 0 <= i < single.len() implies #[trigger] single[i].len() <= MAX_WINDOW_LEN by {
        assert(single[i] == next);
    }
    lemma_split_encodings(single, rest);
    assert(single.drop_last() =~= Seq::<Seq<u64>>::empty());
    assert(single.last() == next);
    assert(apply_windows(window, single.drop_last()) == (window, Seq::<crate::window::UpdateError>::empty()));
    if next.len() == 0 {
        assert(m == 0);
        assert(window =~= next);
    }
}

} // verus!
