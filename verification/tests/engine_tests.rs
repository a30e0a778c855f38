use pipe_logger::engine::{RotateMethod, RotationEngine, Tee};
use pipe_logger::timestamp::Timestamp;

fn sec_ts(second: u64) -> Timestamp {
    Timestamp { year: 2018, month: 1, day: 1, hour: 12, minute: 0, second, millis: 0 }
}

fn engine(rotate: Option<RotateMethod>, count: Option<usize>, compress: bool) -> RotationEngine {
    RotationEngine::new(
        b"logfile".to_vec(),
        b".log".to_vec(),
        rotate,
        count,
        compress,
        Some(Tee::Stdout),
        Vec::new(),
    )
}

#[test]
fn threshold_ten_rotates_on_the_second_write() {
    // Two 6-byte lines against a 10-byte threshold: the first write stays
    // under it, the second reaches 12 >= 10 and triggers exactly one
    // rotation.
    let mut e = engine(Some(RotateMethod::FileSize(10)), None, false);
    assert!(!e.note_write(6));
    assert!(e.note_write(6));
    assert_eq!(e.current_size, 12);
    let out = e.rotate(&sec_ts(0));
    assert_eq!(out.archive_name, b"logfile-2018-01-01-12-00-00-000.log".to_vec());
    assert!(!out.compress);
    assert!(out.evicted.is_empty());
    // The live file is truncated: the size counter starts over.
    assert_eq!(e.current_size, 0);
    assert_eq!(e.history.len(), 1);
    assert!(!e.should_rotate());
}

#[test]
fn three_rotations_with_count_two_leave_one_archive() {
    // threshold = 5, count = 2: after the third rotation exactly one
    // archive record remains (the `>=` retention rule).
    let mut e = engine(Some(RotateMethod::FileSize(5)), Some(2), false);

    assert!(e.note_write(6));
    let out1 = e.rotate(&sec_ts(1));
    assert!(out1.evicted.is_empty());
    assert_eq!(e.history.len(), 1);

    assert!(e.note_write(6));
    let out2 = e.rotate(&sec_ts(2));
    assert_eq!(out2.evicted.len(), 1);
    assert_eq!(out2.evicted[0].timestamp, sec_ts(1));
    assert_eq!(e.history.len(), 1);

    assert!(e.note_write(6));
    let out3 = e.rotate(&sec_ts(3));
    assert_eq!(out3.evicted.len(), 1);
    assert_eq!(out3.evicted[0].timestamp, sec_ts(2));
    assert_eq!(e.history.len(), 1);
    assert_eq!(e.history[0].timestamp, sec_ts(3));
}

#[test]
fn no_rotation_policy_never_rotates() {
    let mut e = engine(None, None, false);
    for _ in 0..1000 {
        assert!(!e.note_write(4096));
    }
    assert!(e.history.is_empty());
}

#[test]
fn compression_is_requested_exactly_when_configured() {
    let mut e = engine(Some(RotateMethod::FileSize(2)), None, true);
    assert!(e.note_write(2));
    let out = e.rotate(&sec_ts(0));
    // The archive is handed to the background compressor; the rotation
    // itself does not wait for it.
    assert!(out.compress);

    let mut plain = engine(Some(RotateMethod::FileSize(2)), None, false);
    assert!(plain.note_write(2));
    assert!(!plain.rotate(&sec_ts(1)).compress);
}

#[test]
fn rotation_uses_the_wall_clock_instant() {
    let mut e = engine(Some(RotateMethod::FileSize(2)), None, false);
    assert!(e.note_write(100));
    let ts = Timestamp { year: 999, month: 12, day: 5, hour: 1, minute: 2, second: 3, millis: 45 };
    let out = e.rotate(&ts);
    assert_eq!(out.archive_name, b"logfile-0999-12-05-01-02-03-045.log".to_vec());
}

#[test]
fn engine_keeps_its_scanned_history() {
    let history = vec![pipe_logger::naming::ArchiveRecord {
        timestamp: sec_ts(0),
        compressed: true,
    }];
    let mut e = RotationEngine::new(
        b"logfile".to_vec(),
        b".log".to_vec(),
        Some(RotateMethod::FileSize(2)),
        Some(2),
        false,
        None,
        history,
    );
    // One prior archive plus the new one reaches the count of 2: the
    // oldest is evicted.
    assert!(e.note_write(2));
    let out = e.rotate(&sec_ts(30));
    assert_eq!(out.evicted.len(), 1);
    assert!(out.evicted[0].compressed);
    assert_eq!(e.history.len(), 1);
    assert_eq!(e.history[0].timestamp, sec_ts(30));
}
