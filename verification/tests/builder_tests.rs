use pipe_logger::builder::{from_cli, FromCliError, PipeLoggerBuilder, PipeLoggerBuilderError};
use pipe_logger::cli::CLIArgs;
use pipe_logger::engine::{RotateMethod, Tee};

fn cli(rotate: Option<&str>, count: Option<usize>, compress: bool, err: bool, path: &str) -> CLIArgs {
    CLIArgs {
        rotate: rotate.map(|s| s.to_string()),
        count,
        compress,
        err,
        log_path: path.to_string(),
    }
}

#[test]
fn from_cli_reads_decimal_size_units() {
    // 10M is 10 megabytes: the size string really goes through the byte
    // parser.
    let b = from_cli(&cli(Some("10M"), Some(4), true, false, "out.log")).unwrap();
    assert_eq!(b.rotate, Some(RotateMethod::FileSize(10_000_000)));
    assert_eq!(b.count, Some(4));
    assert!(b.compress);
    assert_eq!(b.tee, Some(Tee::Stdout));
    assert_eq!(b.log_path, b"out.log".to_vec());
}

#[test]
fn from_cli_reads_binary_size_units() {
    let b = from_cli(&cli(Some("8 KiB"), None, false, false, "out.log")).unwrap();
    assert_eq!(b.rotate, Some(RotateMethod::FileSize(8192)));
}

#[test]
fn from_cli_takes_a_bare_number_as_bytes() {
    let b = from_cli(&cli(Some("123"), None, false, false, "out.log")).unwrap();
    assert_eq!(b.rotate, Some(RotateMethod::FileSize(123)));
}

#[test]
fn from_cli_rejects_a_size_over_64_bits() {
    assert_eq!(
        from_cli(&cli(Some("100EiB"), None, false, false, "out.log")).unwrap_err(),
        FromCliError::RotateSizeTooLarge
    );
}

#[test]
fn from_cli_rejects_an_unreadable_size() {
    assert_eq!(
        from_cli(&cli(Some("ten megabytes"), None, false, false, "out.log")).unwrap_err(),
        FromCliError::RotateSizeInvalid
    );
}

#[test]
fn from_cli_without_rotation_drops_count_and_compress() {
    let b = from_cli(&cli(None, Some(4), true, false, "out.log")).unwrap();
    assert_eq!(b.rotate, None);
    assert_eq!(b.count, None);
    assert!(!b.compress);
}

#[test]
fn from_cli_tees_to_stderr_under_err() {
    let b = from_cli(&cli(None, None, false, true, "out.log")).unwrap();
    assert_eq!(b.tee, Some(Tee::Stderr));
}

#[test]
fn build_rejects_a_threshold_under_two() {
    let mut b = PipeLoggerBuilder::new(b"out.log".to_vec());
    b.set_rotate(Some(RotateMethod::FileSize(1)));
    assert_eq!(
        b.build(&Vec::new()).unwrap_err(),
        PipeLoggerBuilderError::RotateFileSizeTooSmall
    );
}

#[test]
fn build_rejects_a_count_of_zero() {
    let mut b = PipeLoggerBuilder::new(b"out.log".to_vec());
    b.set_rotate(Some(RotateMethod::FileSize(10)));
    b.set_count(Some(0));
    assert_eq!(b.build(&Vec::new()).unwrap_err(), PipeLoggerBuilderError::CountTooSmall);
}

#[test]
fn build_rejects_a_path_without_a_file_name() {
    let b = PipeLoggerBuilder::new(b"/var/log/".to_vec());
    assert_eq!(b.build(&Vec::new()).unwrap_err(), PipeLoggerBuilderError::FileNameMissing);
}

#[test]
fn build_scans_the_directory_listing() {
    let mut b = PipeLoggerBuilder::new(b"/var/log/out.log".to_vec());
    b.set_rotate(Some(RotateMethod::FileSize(10)));
    b.set_count(Some(4));
    b.set_tee(Some(Tee::Stdout));
    let names: Vec<Vec<u8>> = vec![
        b"out-2018-01-02-00-00-00-000.log".to_vec(),
        b"out-2018-01-01-00-00-00-000.log.xz".to_vec(),
        b"syslog".to_vec(),
    ];
    let e = b.build(&names).unwrap();
    assert_eq!(e.stem, b"out".to_vec());
    assert_eq!(e.ext, b".log".to_vec());
    assert_eq!(e.rotate, Some(RotateMethod::FileSize(10)));
    assert_eq!(e.count, Some(4));
    assert_eq!(e.current_size, 0);
    assert_eq!(e.history.len(), 2);
    assert!(e.history[0].compressed);
    assert_eq!(e.history[0].timestamp.day, 1);
    assert!(!e.history[1].compressed);
    assert_eq!(e.history[1].timestamp.day, 2);
}

#[test]
fn builder_getters_report_what_was_set() {
    let mut b = PipeLoggerBuilder::new(b"out.log".to_vec());
    assert_eq!(b.rotate(), None);
    assert_eq!(b.count(), None);
    assert!(!b.compress());
    assert_eq!(b.tee(), None);
    b.set_rotate(Some(RotateMethod::FileSize(2)));
    b.set_count(Some(1));
    b.set_compress(true);
    b.set_tee(Some(Tee::Stderr));
    assert_eq!(b.rotate(), Some(RotateMethod::FileSize(2)));
    assert_eq!(b.count(), Some(1));
    assert!(b.compress());
    assert_eq!(b.tee(), Some(Tee::Stderr));
    assert_eq!(b.log_path(), &b"out.log".to_vec());
}
