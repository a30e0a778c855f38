use pipe_logger::history::{enforce, scan};
use pipe_logger::naming::ArchiveRecord;
use pipe_logger::timestamp::Timestamp;

fn day_ts(day: u64) -> Timestamp {
    Timestamp { year: 2018, month: 1, day, hour: 0, minute: 0, second: 0, millis: 0 }
}

fn day_rec(day: u64, compressed: bool) -> ArchiveRecord {
    ArchiveRecord { timestamp: day_ts(day), compressed }
}

#[test]
fn scan_reconstructs_matching_archives_in_order() {
    // Pre-rotation compressed and uncompressed archives for the same base
    // name, listed out of order, plus unrelated files.
    let names: Vec<Vec<u8>> = vec![
        b"logfile-2018-01-02-00-00-00-000.log".to_vec(),
        b"notes.txt".to_vec(),
        b"logfile-2018-01-01-00-00-00-000.log.xz".to_vec(),
        b"logfile.log".to_vec(),
        b"logfile-2018-01-03-00-00-00-000.log".to_vec(),
        b"logfile-backup.log".to_vec(),
    ];
    let history = scan(&names, &b"logfile".to_vec(), &b".log".to_vec());
    assert_eq!(
        history,
        vec![day_rec(1, true), day_rec(2, false), day_rec(3, false)]
    );
}

#[test]
fn scan_merges_both_forms_of_one_rotation() {
    // Compression was interrupted between copy and delete: both files of
    // one rotation remain. The history holds one record, marked
    // compressed.
    let names: Vec<Vec<u8>> = vec![
        b"logfile-2018-01-01-00-00-00-000.log".to_vec(),
        b"logfile-2018-01-01-00-00-00-000.log.xz".to_vec(),
    ];
    let history = scan(&names, &b"logfile".to_vec(), &b".log".to_vec());
    assert_eq!(history, vec![day_rec(1, true)]);
}

#[test]
fn scan_of_unrelated_files_is_empty() {
    let names: Vec<Vec<u8>> = vec![b"a.txt".to_vec(), b"logfile.log".to_vec()];
    let history = scan(&names, &b"logfile".to_vec(), &b".log".to_vec());
    assert_eq!(history, Vec::<ArchiveRecord>::new());
}

#[test]
fn scan_orders_by_millisecond() {
    let names: Vec<Vec<u8>> = vec![
        b"logfile-2018-01-01-00-00-00-002.log".to_vec(),
        b"logfile-2018-01-01-00-00-00-001.log".to_vec(),
    ];
    let history = scan(&names, &b"logfile".to_vec(), &b".log".to_vec());
    assert_eq!(history.len(), 2);
    assert_eq!(history[0].timestamp.millis, 1);
    assert_eq!(history[1].timestamp.millis, 2);
}

#[test]
fn enforce_evicts_oldest_until_under_count() {
    let mut history = vec![day_rec(1, true), day_rec(2, false), day_rec(3, false)];
    let evicted = enforce(&mut history, 3);
    // The `>=` rule: a count of 3 keeps 2 stored archives.
    assert_eq!(evicted, vec![day_rec(1, true)]);
    assert_eq!(history, vec![day_rec(2, false), day_rec(3, false)]);
}

#[test]
fn enforce_with_count_one_evicts_everything() {
    let mut history = vec![day_rec(1, false), day_rec(2, false)];
    let evicted = enforce(&mut history, 1);
    assert_eq!(evicted, vec![day_rec(1, false), day_rec(2, false)]);
    assert_eq!(history, Vec::<ArchiveRecord>::new());
}

#[test]
fn enforce_under_quota_changes_nothing() {
    let mut history = vec![day_rec(1, false)];
    let evicted = enforce(&mut history, 5);
    assert_eq!(evicted, Vec::<ArchiveRecord>::new());
    assert_eq!(history, vec![day_rec(1, false)]);
}
