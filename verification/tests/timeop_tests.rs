use extutils::timeop::{
    compact_time_text, get_time_local_str, get_time_utc_str, ticks_from_timespec, time_left,
    tran_time_utc_from_str, utc_time_trans_value, CivilTime, TimeOpError,
};

fn civil(year: i32, month: u32, day: u32, hour: u32, minute: u32, second: u32) -> CivilTime {
    CivilTime { year, month, day, hour, minute, second }
}

#[test]
fn compact_stamps() {
    assert_eq!(compact_time_text(&civil(2024, 1, 2, 3, 4, 5)), "20240102030405");
    assert_eq!(compact_time_text(&civil(7, 12, 31, 23, 59, 59)), "00071231235959");
}

#[test]
fn compact_stamp_negative_year() {
    assert_eq!(compact_time_text(&civil(-5, 1, 1, 0, 0, 0)), "-0050101000000");
    assert_eq!(compact_time_text(&civil(12345, 1, 1, 0, 0, 0)), "123450101000000");
}

#[test]
fn reading_stamps() {
    assert_eq!(tran_time_utc_from_str("20240229120000"), Ok(civil(2024, 2, 29, 12, 0, 0)));
    assert_eq!(tran_time_utc_from_str("20230229120000"), Err(TimeOpError::NotADate));
    assert_eq!(tran_time_utc_from_str("19000229120000"), Err(TimeOpError::NotADate));
    assert_eq!(tran_time_utc_from_str("20000229120000"), Ok(civil(2000, 2, 29, 12, 0, 0)));
    assert_eq!(tran_time_utc_from_str("2024"), Err(TimeOpError::BadLength { len: 4 }));
    assert_eq!(tran_time_utc_from_str("2024x102120000"), Err(TimeOpError::BadField { start: 4 }));
    assert_eq!(tran_time_utc_from_str("20241301000000"), Err(TimeOpError::NotADate));
    assert_eq!(tran_time_utc_from_str("20240101240000"), Err(TimeOpError::NotADate));
    assert_eq!(tran_time_utc_from_str("+9990101000000"), Ok(civil(999, 1, 1, 0, 0, 0)));
}

#[test]
fn stamp_round_trip() {
    let c = civil(1999, 12, 31, 23, 59, 58);
    assert_eq!(tran_time_utc_from_str(&compact_time_text(&c)), Ok(c));
}

#[test]
fn current_stamps_read_back() {
    let s = get_time_utc_str().unwrap();
    assert_eq!(s.len(), 14);
    assert!(tran_time_utc_from_str(&s).is_ok());
    let l = get_time_local_str().unwrap();
    assert_eq!(l.len(), 14);
}

#[test]
fn timestamp_text() {
    assert_eq!(utc_time_trans_value(0), "1970-01-01 00:00:00");
    assert_eq!(utc_time_trans_value(86400 * 365), "1971-01-01 00:00:00");
    assert_eq!(utc_time_trans_value(-1), "1969-12-31 23:59:59");
    assert_eq!(utc_time_trans_value(i64::MAX).len(), 19);
}

#[test]
fn ticks() {
    assert_eq!(ticks_from_timespec(2, 500_000_000), 2500);
    assert_eq!(ticks_from_timespec(0, 1_999_999_999), 999);
}

#[test]
fn time_left_cases() {
    assert_eq!(time_left(100, 150, 100), 50);
    assert_eq!(time_left(100, 100, 100), 100);
    assert_eq!(time_left(100, 200, 100), -1);
    assert_eq!(time_left(100, 50, 100), -1);
    assert_eq!(time_left(100, 100, 0), -1);
}

#[test]
fn time_left_after_counter_wraps() {
    assert_eq!(time_left(u64::MAX - 10, u64::MAX - 5, 100), 95);
    assert_eq!(time_left(u64::MAX - 10, 30, 100), 60);
    assert_eq!(time_left(u64::MAX - 10, u64::MAX, 100), -1);
    assert_eq!(time_left(u64::MAX - 10, 90, 100), -1);
    assert_eq!(time_left(u64::MAX - 10, 100, 100), -1);
}

#[test]
fn timestamp_text_fallback_is_a_stamp() {
    let s = utc_time_trans_value(i64::MIN);
    assert_eq!(s.len(), 19);
    assert_eq!(&s[4..5], "-");
    assert_eq!(&s[10..11], " ");
}
