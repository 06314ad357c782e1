use glitchwing::probe::{sample_path, Probe};

#[test]
fn samples_the_first_of_every_ten_frames() {
    let mut p = Probe::new();
    let mut sampled = Vec::new();
    for i in 1..=100u32 {
        assert!(p.accepts(100));
        let v = p.frame(100);
        assert_eq!(v.first, i == 1);
        if v.sample {
            sampled.push(i);
            p.sample_saved();
        }
    }
    assert_eq!(sampled, [1, 11, 21, 31, 41]);
    assert_eq!((p.count, p.saved, p.bytes), (100, 5, 10_000));
}

#[test]
fn a_sample_that_was_not_saved_does_not_count() {
    let mut p = Probe::new();
    let sampled = (0..100).filter(|_| p.frame(1).sample).count();
    assert_eq!(sampled, 10);
}

#[test]
fn average_frame_size() {
    let mut p = Probe::new();
    assert_eq!(p.average(), None);
    p.frame(10);
    p.frame(15);
    assert_eq!(p.average(), Some(12));
}

#[test]
fn counters_have_limits() {
    let mut p = Probe::new();
    p.frame(usize::MAX);
    assert!(!p.accepts(1));
    assert!(p.accepts(0));
    assert!(!Probe { count: u32::MAX, ..Probe::new() }.accepts(0));
}

#[test]
fn sample_paths() {
    assert_eq!(sample_path(1), "live_frames/live_001.jpg");
    assert_eq!(sample_path(41), "live_frames/live_041.jpg");
    assert_eq!(sample_path(12345), "live_frames/live_12345.jpg");
}
