use st_sync::broadcast::BeatPublisher;
use st_sync::client::{drain_messages, Client};
use st_sync::controller::{Broadcaster, DEFAULT_CAPACITY};
use st_sync::window::{BeatWindow, UpdateError};
use st_sync::wire::encode;

#[test]
fn consumer_accepts_every_published_window() {
    let mut p = BeatPublisher::new(3);
    let mut w = BeatWindow::new();
    for f in [100u64, 200, 300, 400, 500, 600, 700] {
        let published = p.record_beat(f).to_vec();
        assert_eq!(w.update(&published), Ok(()));
        assert_eq!(w.frames(), &published[..]);
    }
    assert_eq!(w.frames(), &[500, 600, 700]);
}

#[test]
fn late_consumer_accepts_later_window_after_gap() {
    let mut p = BeatPublisher::new(3);
    let mut w = BeatWindow::new();
    for f in [10u64, 20, 30] {
        p.record_beat(f);
    }
    w.update(p.window()).unwrap();
    for f in [40u64, 50, 60, 70, 80] {
        p.record_beat(f);
    }
    assert_eq!(w.update(p.window()), Ok(()));
    assert_eq!(w.frames(), &[60, 70, 80]);
}

#[test]
fn accepted_update_keeps_known_frames_scenario() {
    let mut w = BeatWindow::new();
    w.update(&[0, 100, 200, 300]).unwrap();
    w.update(&[200, 300, 400]).unwrap();
    for x in [200u64, 300] {
        assert!(w.frames().contains(&x));
    }
}

#[test]
fn drain_applies_all_complete_messages_and_keeps_tail() {
    let mut w = BeatWindow::new();
    let mut buf = encode(&[100u64, 200]).unwrap();
    buf.extend_from_slice(&encode(&[100u64, 200, 300]).unwrap());
    let third = encode(&[200u64, 300, 400]).unwrap();
    buf.extend_from_slice(&third[..5]);
    let errors = drain_messages(&mut w, &mut buf);
    assert!(errors.is_empty());
    assert_eq!(w.frames(), &[100, 200, 300]);
    assert_eq!(buf, third[..5].to_vec());
    buf.extend_from_slice(&third[5..]);
    let errors = drain_messages(&mut w, &mut buf);
    assert!(errors.is_empty());
    assert_eq!(w.frames(), &[200, 300, 400]);
    assert!(buf.is_empty());
}

#[test]
fn drain_reports_rejections_in_order_and_continues() {
    let mut w = BeatWindow::new();
    let mut buf = encode(&[0u64, 100, 200, 300, 400]).unwrap();
    buf.extend_from_slice(&encode(&[0u64, 100, 200, 350]).unwrap());
    buf.extend_from_slice(&encode(&[100u64, 90]).unwrap());
    buf.extend_from_slice(&encode(&[400u64, 500]).unwrap());
    let errors = drain_messages(&mut w, &mut buf);
    assert_eq!(
        errors,
        vec![
            UpdateError::BackwardMove { current_high: 400, incoming_high: 350 },
            UpdateError::NotMonotonic,
        ]
    );
    assert_eq!(w.frames(), &[400, 500]);
    assert!(buf.is_empty());
}

#[test]
fn drain_in_two_reads_matches_one_read() {
    let mut bytes = encode(&[1u64, 2, 3]).unwrap();
    bytes.extend_from_slice(&encode(&[2u64, 3, 4]).unwrap());
    bytes.extend_from_slice(&encode(&[3u64, 4, 5, 6]).unwrap());
    for split in 0..=bytes.len() {
        let mut w1 = BeatWindow::new();
        let mut buf1 = bytes.clone();
        let e1 = drain_messages(&mut w1, &mut buf1);

        let mut w2 = BeatWindow::new();
        let mut buf2 = bytes[..split].to_vec();
        let mut e2 = drain_messages(&mut w2, &mut buf2);
        buf2.extend_from_slice(&bytes[split..]);
        e2.extend(drain_messages(&mut w2, &mut buf2));

        assert_eq!(w1.frames(), w2.frames());
        assert_eq!(e1, e2);
        assert_eq!(buf1, buf2);
    }
}

#[test]
fn drain_of_partial_message_changes_nothing() {
    let mut w = BeatWindow::new();
    let mut buf = vec![2u8, 1, 2, 3];
    let errors = drain_messages(&mut w, &mut buf);
    assert!(errors.is_empty());
    assert!(w.is_empty());
    assert_eq!(buf, vec![2u8, 1, 2, 3]);
}

#[test]
fn broadcaster_seeds_nothing_before_first_beat() {
    let b = Broadcaster::new(DEFAULT_CAPACITY);
    assert_eq!(b.seed_message(), None);
    assert_eq!(b.window_message(), Some(vec![0u8]));
}

#[test]
fn broadcaster_drops_non_monotonic_beats() {
    let mut b = Broadcaster::new(4);
    assert!(b.offer_beat(1000));
    assert!(!b.offer_beat(1000));
    assert!(!b.offer_beat(500));
    assert!(b.offer_beat(2000));
    assert_eq!(b.window_frames(), &[1000, 2000]);
}

#[test]
fn broadcaster_batch_sends_window_only_when_something_recorded() {
    let mut b = Broadcaster::new(4);
    let msg = b.offer_beats(&[1000, 2000, 1500, 3000, 4000, 5000]);
    assert_eq!(msg, Some(encode(&[2000u64, 3000, 4000, 5000]).unwrap()));
    assert_eq!(b.offer_beats(&[4000, 100]), None);
    assert_eq!(b.offer_beats(&[]), None);
    assert_eq!(b.seed_message(), Some(encode(&[2000u64, 3000, 4000, 5000]).unwrap()));
}

#[test]
fn broadcaster_window_too_long_for_wire_sends_nothing() {
    let mut b = Broadcaster::new(300);
    let frames: Vec<u64> = (1..=256u64).collect();
    assert_eq!(b.offer_beats(&frames), None);
    assert_eq!(b.window_frames().len(), 256);
    assert_eq!(b.seed_message(), None);
}

#[test]
fn broadcaster_to_consumer_through_the_wire() {
    let mut b = Broadcaster::new(4);
    let mut w = BeatWindow::new();
    let mut buf: Vec<u8> = Vec::new();
    for f in [1000u64, 2000, 3000, 4000, 5000] {
        if let Some(bytes) = b.offer_beats(&[f]) {
            buf.extend_from_slice(&bytes);
        }
    }
    let errors = drain_messages(&mut w, &mut buf);
    assert!(errors.is_empty());
    assert_eq!(w.frames(), &[2000, 3000, 4000, 5000]);
    assert_eq!(w.frames_per_beat(), Some(1000));
}

#[test]
fn client_reads_the_shared_window() {
    let client = Client::new();
    assert!(client.is_empty());
    assert_eq!(client.frames_per_beat(), None);
    assert!(client.snapshot().frames.is_empty());
    let feed = client.feed();
    let mut buf = encode(&[40_000u64, 50_000, 60_000, 70_000, 80_000]).unwrap();
    let errors = feed.drain(&mut buf);
    assert!(errors.is_empty());
    assert!(buf.is_empty());
    assert!(!client.is_empty());
    assert_eq!(client.snapshot().frames, vec![40_000u64, 50_000, 60_000, 70_000, 80_000]);
    assert_eq!(client.frames_per_beat(), Some(10_000));
    assert_eq!(client.segment_at(45_000), Some((0, 40_000, 50_000)));
    assert_eq!(client.segment_at(75_000), Some((3, 70_000, 80_000)));
    assert_eq!(client.segment_at(85_000), None);
}

#[test]
fn drain_skips_empty_window_message() {
    let mut w = BeatWindow::new();
    let mut buf = encode(&[100u64, 200]).unwrap();
    buf.extend_from_slice(&encode(&[]).unwrap());
    let errors = drain_messages(&mut w, &mut buf);
    assert!(errors.is_empty());
    assert_eq!(w.frames(), &[100, 200]);
}

#[test]
fn broadcaster_windows_are_tails_of_accepted_beats() {
    let mut b = Broadcaster::new(3);
    let offered = [10u64, 5, 20, 20, 30, 25, 40, 50];
    let mut accepted: Vec<u64> = Vec::new();
    for f in offered {
        if b.offer_beat(f) {
            accepted.push(f);
        }
        let start = accepted.len().saturating_sub(3);
        assert_eq!(b.window_frames(), &accepted[start..]);
    }
    assert_eq!(accepted, vec![10, 20, 30, 40, 50]);
}

#[test]
fn concatenated_encodings_drain_to_each_window_in_order() {
    let windows: Vec<Vec<u64>> = vec![vec![1, 2], vec![1, 2, 3], vec![2, 3, 4]];
    let mut buf: Vec<u8> = Vec::new();
    for w in &windows {
        buf.extend_from_slice(&encode(w).unwrap());
    }
    buf.extend_from_slice(&[5u8, 0, 0]);
    let mut w = BeatWindow::new();
    let errors = drain_messages(&mut w, &mut buf);
    assert!(errors.is_empty());
    assert_eq!(w.frames(), &[2, 3, 4]);
    assert_eq!(buf, vec![5u8, 0, 0]);
}

#[test]
fn feed_reports_rejections_and_keeps_tail() {
    let client = Client::new();
    let feed = client.feed();
    let mut buf = encode(&[100u64, 200, 300]).unwrap();
    buf.extend_from_slice(&encode(&[100u64, 250]).unwrap());
    buf.extend_from_slice(&[4u8, 1]);
    let errors = feed.drain(&mut buf);
    assert_eq!(errors, vec![UpdateError::BackwardMove { current_high: 300, incoming_high: 250 }]);
    assert_eq!(buf, vec![4u8, 1]);
    assert_eq!(client.snapshot().frames, vec![100u64, 200, 300]);
    assert_eq!(client.frames_per_beat(), Some(100));
}

#[test]
fn client_one_beat_window_segment() {
    let client = Client::default();
    let mut buf = encode(&[1000u64]).unwrap();
    client.feed().drain(&mut buf);
    assert_eq!(client.segment_at(1000), Some((0, 1000, 1000)));
    assert_eq!(client.segment_at(1001), None);
    assert_eq!(client.frames_per_beat(), None);
}

#[test]
fn consumer_holding_producer_window_catches_up_after_a_pass() {
    let mut b = Broadcaster::new(3);
    b.offer_beats(&[10, 20, 30]);
    let mut w = BeatWindow::new();
    w.update(b.window_frames()).unwrap();
    let msg = b.offer_beats(&[40, 35, 50, 60]).unwrap();
    let mut buf = msg.clone();
    buf.push(2);
    let errors = drain_messages(&mut w, &mut buf);
    assert!(errors.is_empty());
    assert_eq!(w.frames(), b.window_frames());
    assert_eq!(w.frames(), &[40, 50, 60]);
    assert_eq!(buf, vec![2u8]);
}
