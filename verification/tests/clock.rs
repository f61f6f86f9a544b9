use chrono::{DateTime, Utc};
use n1mm_bridge::clock::{
    now_parts, now_rfc3339, now_timestamp, parts_at, rfc3339_at, timestamp_at, unix_time, Moment,
};

fn moment(year: i32, month: u32, day: u32, time: (u32, u32, u32), nanosecond: u32) -> Moment {
    Moment {
        year,
        month,
        day,
        hour: time.0,
        minute: time.1,
        second: time.2,
        nanosecond,
        unix: 0,
    }
}

#[test]
fn moments_are_written() {
    let m = moment(2024, 6, 9, (1, 2, 3), 0);
    assert_eq!(parts_at(&m), ("2024-06-09".to_string(), "01:02:03".to_string()));
    assert_eq!(timestamp_at(&m), "2024-06-09 01:02:03");
    assert_eq!(rfc3339_at(&m), "2024-06-09T01:02:03+00:00");
    let m = moment(2024, 2, 29, (23, 59, 59), 120_000_000);
    assert_eq!(timestamp_at(&m), "2024-02-29 23:59:59");
    assert_eq!(rfc3339_at(&m), "2024-02-29T23:59:59.120+00:00");
    assert_eq!(
        rfc3339_at(&moment(1969, 12, 31, (0, 0, 0), 1_002_000)),
        "1969-12-31T00:00:00.001002+00:00"
    );
    assert_eq!(
        rfc3339_at(&moment(9999, 12, 31, (0, 0, 0), 999_999_999)),
        "9999-12-31T00:00:00.999999999+00:00"
    );
    let m = moment(262_142, 12, 31, (10, 20, 30), 1);
    assert_eq!(parts_at(&m).0, "+262142-12-31");
    assert_eq!(timestamp_at(&m), "+262142-12-31 10:20:30");
    assert_eq!(rfc3339_at(&m), "+262142-12-31T10:20:30.000000001+00:00");
    assert_eq!(parts_at(&moment(10_000, 1, 1, (0, 0, 0), 0)).0, "+10000-01-01");
}

#[test]
fn clock_is_read() {
    let before = unix_time();
    let text = now_rfc3339();
    let after = unix_time();
    let read = DateTime::parse_from_rfc3339(&text).unwrap().with_timezone(&Utc);
    assert!(before <= read.timestamp() && read.timestamp() <= after);
    let (date, time) = now_parts();
    let stamp = now_timestamp();
    assert_eq!(date.len(), 10);
    assert_eq!(time.len(), 8);
    assert_eq!(stamp.len(), 19);
    let day: Vec<u32> = date.split('-').map(|s| s.parse().unwrap()).collect();
    assert!(day[0] >= 2020 && (1..=12).contains(&day[1]) && (1..=31).contains(&day[2]));
}
