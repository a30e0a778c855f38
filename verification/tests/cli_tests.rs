use pipe_logger::cli::{get_args, parse_usize, ArgError};

fn args(list: &[&str]) -> Vec<String> {
    list.iter().map(|s| s.to_string()).collect()
}

#[test]
fn full_command_line_is_parsed() {
    let r = get_args(&args(&["/path/to/out.log", "-r", "10M", "-c", "4", "--compress"])).unwrap();
    assert_eq!(r.log_path, "/path/to/out.log".to_string());
    assert_eq!(r.rotate, Some("10M".to_string()));
    assert_eq!(r.count, Some(4));
    assert!(r.compress);
    assert!(!r.err);
}

#[test]
fn defaults_apply_without_arguments() {
    let r = get_args(&Vec::new()).unwrap();
    assert_eq!(r.log_path, "logfile.log".to_string());
    assert_eq!(r.rotate, None);
    assert_eq!(r.count, None);
    assert!(!r.compress);
    assert!(!r.err);
}

#[test]
fn long_options_and_err_flag() {
    let r = get_args(&args(&["--rotate", "1MiB", "--count", "2", "--err", "out.log"])).unwrap();
    assert_eq!(r.rotate, Some("1MiB".to_string()));
    assert_eq!(r.count, Some(2));
    assert!(r.err);
    assert_eq!(r.log_path, "out.log".to_string());
}

#[test]
fn log_path_option_is_accepted() {
    let r = get_args(&args(&[
        "--rotate",
        "10M",
        "--count",
        "4",
        "--compress",
        "--err",
        "--log-path",
        "/tmp/a.log",
    ]))
    .unwrap();
    assert_eq!(r.rotate, Some("10M".to_string()));
    assert_eq!(r.count, Some(4));
    assert!(r.compress);
    assert!(r.err);
    assert_eq!(r.log_path, "/tmp/a.log".to_string());
}

#[test]
fn long_options_take_values_after_equals() {
    let r = get_args(&args(&["--rotate=10M", "--count=4", "--log-path=/tmp/a.log"])).unwrap();
    assert_eq!(r.rotate, Some("10M".to_string()));
    assert_eq!(r.count, Some(4));
    assert_eq!(r.log_path, "/tmp/a.log".to_string());
}

#[test]
fn log_path_option_needs_a_value() {
    assert_eq!(get_args(&args(&["--log-path"])).unwrap_err(), ArgError::MissingLogPathValue);
}

#[test]
fn log_path_option_supersedes_a_positional_path() {
    let r = get_args(&args(&["one.log", "--log-path", "two.log"])).unwrap();
    assert_eq!(r.log_path, "two.log".to_string());
    // A positional after the path was fixed is still one path too many.
    assert_eq!(
        get_args(&args(&["--log-path", "one.log", "two.log"])).unwrap_err(),
        ArgError::UnexpectedArgument
    );
}

#[test]
fn an_empty_equals_value_is_kept_verbatim() {
    let r = get_args(&args(&["--rotate="])).unwrap();
    assert_eq!(r.rotate, Some("".to_string()));
    assert_eq!(get_args(&args(&["--count="])).unwrap_err(), ArgError::InvalidCount);
}

#[test]
fn a_repeated_option_keeps_its_last_value() {
    let r = get_args(&args(&["-r", "1M", "-r", "2M", "out.log"])).unwrap();
    assert_eq!(r.rotate, Some("2M".to_string()));
}

#[test]
fn help_and_version_are_requested() {
    assert_eq!(get_args(&args(&["-h"])).unwrap_err(), ArgError::HelpRequested);
    assert_eq!(get_args(&args(&["--help"])).unwrap_err(), ArgError::HelpRequested);
    assert_eq!(get_args(&args(&["-V"])).unwrap_err(), ArgError::VersionRequested);
    assert_eq!(get_args(&args(&["--version"])).unwrap_err(), ArgError::VersionRequested);
}

#[test]
fn unknown_options_are_rejected() {
    assert_eq!(get_args(&args(&["--frobnicate"])).unwrap_err(), ArgError::UnknownOption);
    assert_eq!(get_args(&args(&["-x", "out.log"])).unwrap_err(), ArgError::UnknownOption);
}

#[test]
fn missing_option_values_are_rejected() {
    assert_eq!(get_args(&args(&["-r"])).unwrap_err(), ArgError::MissingRotateValue);
    assert_eq!(get_args(&args(&["out.log", "-c"])).unwrap_err(), ArgError::MissingCountValue);
}

#[test]
fn bad_counts_are_rejected() {
    assert_eq!(get_args(&args(&["-c", "four"])).unwrap_err(), ArgError::InvalidCount);
    assert_eq!(get_args(&args(&["-c", ""])).unwrap_err(), ArgError::InvalidCount);
    assert_eq!(
        get_args(&args(&["-c", "99999999999999999999999999"])).unwrap_err(),
        ArgError::InvalidCount
    );
}

#[test]
fn a_second_positional_argument_is_rejected() {
    assert_eq!(
        get_args(&args(&["one.log", "two.log"])).unwrap_err(),
        ArgError::UnexpectedArgument
    );
}

#[test]
fn parse_usize_reads_decimal_counts() {
    assert_eq!(parse_usize(&"0".to_string()), Some(0));
    assert_eq!(parse_usize(&"42".to_string()), Some(42));
    assert_eq!(parse_usize(&"007".to_string()), Some(7));
    assert_eq!(parse_usize(&"".to_string()), None);
    assert_eq!(parse_usize(&"4 2".to_string()), None);
    assert_eq!(parse_usize(&"-1".to_string()), None);
    assert_eq!(parse_usize(&"18446744073709551615".to_string()), Some(usize::MAX));
    assert_eq!(parse_usize(&"18446744073709551616".to_string()), None);
}
