use ceph_doctor::monitor::ui::header::{
    header_subtitle, header_title, stamp_text, subtitle_from, StampTime,
};

#[test]
fn the_title_names_the_interval() {
    assert_eq!(header_title(5), "CEPH DOCTOR - Cluster Monitor (5s interval)");
    assert_eq!(header_title(0), "CEPH DOCTOR - Cluster Monitor (0s interval)");
    assert_eq!(
        header_title(u64::MAX),
        "CEPH DOCTOR - Cluster Monitor (18446744073709551615s interval)"
    );
}

#[test]
fn the_subtitle_shows_the_stamp_as_date_and_time() {
    assert_eq!(
        header_subtitle("2024-01-15T10:30:45+00:00", "now"),
        "Last Update: 2024-01-15 10:30:45 UTC"
    );
    assert_eq!(
        header_subtitle("2024-01-15T10:30:45.123456Z", "now"),
        "Last Update: 2024-01-15 10:30:45 UTC"
    );
    // The time of day is that of the stamp's own offset.
    assert_eq!(
        header_subtitle("1996-12-19T16:39:57-08:00", "now"),
        "Last Update: 1996-12-19 16:39:57 UTC"
    );
}

#[test]
fn the_subtitle_falls_back_on_the_time_given() {
    assert_eq!(header_subtitle("", "2024-02-02 02:02:02 UTC"), "Last Update: 2024-02-02 02:02:02 UTC");
    assert_eq!(header_subtitle("yesterday", "now"), "Last Update: now");
    assert_eq!(header_subtitle("2024-01-15 10:30:45", "now"), "Last Update: now");
    assert_eq!(header_subtitle("2024-01-15T10:30:45.123456+0000", "now"), "Last Update: now");
    assert_eq!(header_subtitle("2024-13-15T10:30:45Z", "now"), "Last Update: now");
}

fn time(year: i32, month: u32, day: u32, hour: u32, minute: u32, second: u32) -> StampTime {
    StampTime { year, month, day, hour, minute, second, nanosecond: 0 }
}

#[test]
fn the_subtitle_is_made_of_what_was_read() {
    assert_eq!(
        subtitle_from(Some(time(2024, 1, 15, 10, 30, 45)), "now"),
        "Last Update: 2024-01-15 10:30:45 UTC"
    );
    assert_eq!(subtitle_from(None, "now"), "Last Update: now");
}

#[test]
fn a_time_is_shown_in_fixed_width() {
    assert_eq!(stamp_text(&time(2024, 12, 31, 23, 59, 59)), "2024-12-31 23:59:59 UTC");
    assert_eq!(stamp_text(&time(999, 1, 2, 3, 4, 5)), "0999-01-02 03:04:05 UTC");
    assert_eq!(stamp_text(&time(0, 1, 1, 0, 0, 0)), "0000-01-01 00:00:00 UTC");
    assert_eq!(stamp_text(&time(9999, 9, 9, 9, 9, 9)), "9999-09-09 09:09:09 UTC");
    assert_eq!(stamp_text(&time(10000, 1, 1, 0, 0, 0)), "+10000-01-01 00:00:00 UTC");
    assert_eq!(stamp_text(&time(-1, 1, 1, 0, 0, 0)), "-0001-01-01 00:00:00 UTC");
    assert_eq!(stamp_text(&time(i32::MIN, 1, 1, 0, 0, 0)), "-2147483648-01-01 00:00:00 UTC");
}

#[test]
fn a_leap_second_is_shown_as_sixty() {
    let leap = StampTime {
        year: 2016,
        month: 12,
        day: 31,
        hour: 23,
        minute: 59,
        second: 59,
        nanosecond: 1_500_000_000,
    };
    assert_eq!(stamp_text(&leap), "2016-12-31 23:59:60 UTC");
    assert_eq!(
        header_subtitle("2016-12-31T23:59:60Z", "now"),
        "Last Update: 2016-12-31 23:59:60 UTC"
    );
}

#[test]
fn stamps_of_the_first_and_the_last_years_are_read() {
    assert_eq!(
        header_subtitle("0000-01-01T00:00:00Z", "now"),
        "Last Update: 0000-01-01 00:00:00 UTC"
    );
    assert_eq!(
        header_subtitle("0987-06-05T04:03:02+01:00", "now"),
        "Last Update: 0987-06-05 04:03:02 UTC"
    );
    assert_eq!(
        header_subtitle("9999-12-31T23:59:59-23:59", "now"),
        "Last Update: 9999-12-31 23:59:59 UTC"
    );
}

#[test]
fn a_stamp_is_shown_as_the_calendar_library_writes_it() {
    for stamp in [
        "2024-01-15T10:30:45+00:00",
        "2024-01-15T10:30:45.123456Z",
        "1996-12-19T16:39:57-08:00",
        "2016-12-31T23:59:60Z",
        "2016-12-31T23:59:60.75+05:30",
        "0000-01-01T00:00:00Z",
        "0001-02-03t04:05:06z",
        "0999-12-31 23:59:59+23:59",
        "9999-12-31T23:59:59-23:59",
        "2000-02-29T12:00:00.999999999Z",
    ] {
        let read = chrono::DateTime::parse_from_rfc3339(stamp).unwrap();
        let written = read.format("%Y-%m-%d %H:%M:%S UTC").to_string();
        assert_eq!(header_subtitle(stamp, "now"), format!("Last Update: {written}"), "{stamp}");
    }
}
