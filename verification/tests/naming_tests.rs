use pipe_logger::naming::{
    archive_name, compressed_name, file_name, parse_archive, split_name, ArchiveRecord,
};
use pipe_logger::timestamp::Timestamp;

fn ts(year: u64, month: u64, day: u64, hour: u64, minute: u64, second: u64, millis: u64) -> Timestamp {
    Timestamp { year, month, day, hour, minute, second, millis }
}

#[test]
fn archive_name_has_fixed_width_suffix() {
    let name = archive_name(
        &b"logfile".to_vec(),
        &b".log".to_vec(),
        &ts(2018, 1, 1, 12, 0, 0, 0),
    );
    assert_eq!(name, b"logfile-2018-01-01-12-00-00-000.log".to_vec());
}

#[test]
fn archive_name_pads_every_field() {
    let name = archive_name(&b"out".to_vec(), &b".txt".to_vec(), &ts(987, 9, 3, 4, 5, 6, 7));
    assert_eq!(name, b"out-0987-09-03-04-05-06-007.txt".to_vec());
}

#[test]
fn archive_name_with_empty_extension() {
    let name = archive_name(&b"log".to_vec(), &b"".to_vec(), &ts(2020, 12, 31, 23, 59, 59, 999));
    assert_eq!(name, b"log-2020-12-31-23-59-59-999".to_vec());
}

#[test]
fn compressed_name_appends_xz_suffix() {
    let name = compressed_name(&b"logfile-2018-01-01-12-00-00-000.log".to_vec());
    assert_eq!(name, b"logfile-2018-01-01-12-00-00-000.log.xz".to_vec());
}

#[test]
fn parse_round_trips_plain_name() {
    let stem = b"logfile".to_vec();
    let ext = b".log".to_vec();
    let t = ts(2018, 1, 1, 12, 0, 0, 0);
    let name = archive_name(&stem, &ext, &t);
    let rec = parse_archive(&name, &stem, &ext);
    assert_eq!(rec, Some(ArchiveRecord { timestamp: t, compressed: false }));
}

#[test]
fn parse_round_trips_compressed_name() {
    let stem = b"logfile".to_vec();
    let ext = b".log".to_vec();
    let t = ts(2024, 2, 29, 23, 59, 59, 999);
    let name = compressed_name(&archive_name(&stem, &ext, &t));
    let rec = parse_archive(&name, &stem, &ext);
    assert_eq!(rec, Some(ArchiveRecord { timestamp: t, compressed: true }));
}

#[test]
fn parse_rejects_unrelated_and_near_miss_names() {
    let stem = b"logfile".to_vec();
    let ext = b".log".to_vec();
    // The live file itself.
    assert_eq!(parse_archive(&b"logfile.log".to_vec(), &stem, &ext), None);
    // An unrelated file.
    assert_eq!(parse_archive(&b"notes.txt".to_vec(), &stem, &ext), None);
    // Shares the stem prefix but the suffix is not the fixed pattern.
    assert_eq!(parse_archive(&b"logfile-backup.log".to_vec(), &stem, &ext), None);
    assert_eq!(
        parse_archive(&b"logfile-2018-01-01-12-00-00.log".to_vec(), &stem, &ext),
        None
    );
    // A letter where a digit belongs.
    assert_eq!(
        parse_archive(&b"logfile-2018-01-01-12-00-00-0a0.log".to_vec(), &stem, &ext),
        None
    );
    // Month out of range.
    assert_eq!(
        parse_archive(&b"logfile-2018-13-01-12-00-00-000.log".to_vec(), &stem, &ext),
        None
    );
    // Wrong extension.
    assert_eq!(
        parse_archive(&b"logfile-2018-01-01-12-00-00-000.txt".to_vec(), &stem, &ext),
        None
    );
    // Wrong stem.
    assert_eq!(
        parse_archive(&b"logfile2-2018-01-01-12-00-00-000.log".to_vec(), &stem, &ext),
        None
    );
}

#[test]
fn parse_distinguishes_compressed_sibling() {
    let stem = b"logfile".to_vec();
    let ext = b".log".to_vec();
    let rec = parse_archive(&b"logfile-2018-01-01-12-00-00-000.log.xz".to_vec(), &stem, &ext);
    assert_eq!(
        rec,
        Some(ArchiveRecord { timestamp: ts(2018, 1, 1, 12, 0, 0, 0), compressed: true })
    );
    // Only the exact compressed suffix counts.
    assert_eq!(
        parse_archive(&b"logfile-2018-01-01-12-00-00-000.log.gz".to_vec(), &stem, &ext),
        None
    );
}

#[test]
fn names_sort_lexicographically_in_time_order() {
    let stem = b"logfile".to_vec();
    let ext = b".log".to_vec();
    let older = archive_name(&stem, &ext, &ts(2018, 12, 31, 23, 59, 59, 999));
    let newer = archive_name(&stem, &ext, &ts(2019, 1, 1, 0, 0, 0, 0));
    assert!(older < newer);
    let a = archive_name(&stem, &ext, &ts(2019, 1, 1, 0, 0, 0, 1));
    let b = archive_name(&stem, &ext, &ts(2019, 1, 1, 0, 0, 0, 2));
    assert!(a < b);
}

#[test]
fn file_name_takes_the_part_after_the_last_slash() {
    assert_eq!(file_name(&b"/var/log/out.log".to_vec()), b"out.log".to_vec());
    assert_eq!(file_name(&b"out.log".to_vec()), b"out.log".to_vec());
    assert_eq!(file_name(&b"/var/log/".to_vec()), b"".to_vec());
    assert_eq!(file_name(&b"".to_vec()), b"".to_vec());
}

#[test]
fn split_name_cuts_at_the_last_dot() {
    assert_eq!(
        split_name(&b"logfile.log".to_vec()),
        (b"logfile".to_vec(), b".log".to_vec())
    );
    assert_eq!(
        split_name(&b"archive.tar.gz".to_vec()),
        (b"archive.tar".to_vec(), b".gz".to_vec())
    );
    assert_eq!(split_name(&b"logfile".to_vec()), (b"logfile".to_vec(), b"".to_vec()));
    // A leading dot alone is no extension.
    assert_eq!(split_name(&b".hidden".to_vec()), (b".hidden".to_vec(), b"".to_vec()));
    assert_eq!(split_name(&b"".to_vec()), (b"".to_vec(), b"".to_vec()));
}
