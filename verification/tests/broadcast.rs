use st_sync::broadcast::BeatPublisher;

#[test]
fn fresh_publisher_is_empty() {
    let p = BeatPublisher::new(4);
    assert!(p.is_empty());
    assert_eq!(p.window(), &[] as &[u64]);
}

#[test]
fn record_beat_seeds_window() {
    let mut p = BeatPublisher::new(4);
    let w = p.record_beat(1000).to_vec();
    assert_eq!(w, vec![1000]);
}

#[test]
fn record_beat_extends_until_capacity() {
    let mut p = BeatPublisher::new(4);
    p.record_beat(100);
    p.record_beat(200);
    p.record_beat(300);
    let w = p.record_beat(400).to_vec();
    assert_eq!(w, vec![100, 200, 300, 400]);
}

#[test]
fn record_beat_slides_after_capacity_reached() {
    let mut p = BeatPublisher::new(4);
    for f in [100, 200, 300, 400, 500] {
        p.record_beat(f);
    }
    assert_eq!(p.window(), &[200, 300, 400, 500]);
}

#[test]
fn record_beat_continues_sliding_correctly() {
    let mut p = BeatPublisher::new(3);
    for f in [100u64, 200, 300, 400, 500, 600] {
        p.record_beat(f);
    }
    assert_eq!(p.window(), &[400, 500, 600]);
}

#[test]
fn capacity_two_works() {
    let mut p = BeatPublisher::new(2);
    p.record_beat(100);
    p.record_beat(200);
    p.record_beat(300);
    assert_eq!(p.window(), &[200, 300]);
}

#[test]
fn record_beat_returns_current_window_each_time() {
    let mut p = BeatPublisher::new(3);
    for f in [10u64, 20, 30, 40, 50] {
        let returned: Vec<u64> = p.record_beat(f).to_vec();
        assert_eq!(returned, p.window().to_vec());
    }
}

#[test]
fn publisher_is_not_empty_after_first_beat() {
    let mut p = BeatPublisher::new(2);
    p.record_beat(0);
    assert!(!p.is_empty());
    assert_eq!(p.window(), &[0]);
}
