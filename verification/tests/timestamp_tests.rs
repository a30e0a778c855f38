use pipe_logger::timestamp::Timestamp;

fn fields(ts: Timestamp) -> (u64, u64, u64, u64, u64, u64, u64) {
    (ts.year, ts.month, ts.day, ts.hour, ts.minute, ts.second, ts.millis)
}

#[test]
fn epoch_is_the_first_instant() {
    assert_eq!(fields(Timestamp::from_unix_millis(0)), (1970, 1, 1, 0, 0, 0, 0));
}

#[test]
fn a_known_instant_converts_exactly() {
    // 2018-01-01T12:00:00.000Z
    assert_eq!(
        fields(Timestamp::from_unix_millis(1_514_808_000_000)),
        (2018, 1, 1, 12, 0, 0, 0)
    );
}

#[test]
fn leap_day_is_reached() {
    // 2020-02-29T23:59:59.999Z
    assert_eq!(
        fields(Timestamp::from_unix_millis(1_583_020_799_999)),
        (2020, 2, 29, 23, 59, 59, 999)
    );
}

#[test]
fn year_ends_roll_over() {
    // 2023-12-31T23:59:59.000Z and one second later.
    assert_eq!(
        fields(Timestamp::from_unix_millis(1_704_067_199_000)),
        (2023, 12, 31, 23, 59, 59, 0)
    );
    assert_eq!(
        fields(Timestamp::from_unix_millis(1_704_067_200_000)),
        (2024, 1, 1, 0, 0, 0, 0)
    );
}

#[test]
fn century_leap_rules_hold() {
    // 2100 is no leap year: 2100-02-28T00:00:00Z plus a day is March 1st.
    let feb28: u64 = 4_107_456_000_000;
    assert_eq!(fields(Timestamp::from_unix_millis(feb28)), (2100, 2, 28, 0, 0, 0, 0));
    assert_eq!(
        fields(Timestamp::from_unix_millis(feb28 + 86_400_000)),
        (2100, 3, 1, 0, 0, 0, 0)
    );
}

#[test]
fn the_last_representable_instant_is_the_end_of_year_9999() {
    let ts = Timestamp::from_unix_millis(pipe_logger::timestamp::MAX_UNIX_MILLIS - 1);
    assert_eq!(fields(ts), (9999, 12, 31, 23, 59, 59, 999));
}

#[test]
fn keys_order_chronologically() {
    let a = Timestamp { year: 2018, month: 1, day: 1, hour: 0, minute: 0, second: 0, millis: 999 };
    let b = Timestamp { year: 2018, month: 1, day: 1, hour: 0, minute: 0, second: 1, millis: 0 };
    let c = Timestamp { year: 2018, month: 2, day: 1, hour: 0, minute: 0, second: 0, millis: 0 };
    assert!(a.chronological_key() < b.chronological_key());
    assert!(b.chronological_key() < c.chronological_key());
}
