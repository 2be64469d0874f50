use ceph_doctor::monitor::data::estimator::{Eta, Rate};
use ceph_doctor::monitor::data::formatter::{
    format_bytes_per_second, format_eta, format_number, format_optional_rate,
    format_optional_time, format_per_second, format_percentage, format_time,
};

fn per_second(amount: u64) -> Rate {
    Rate { rising: true, amount, seconds: 1 }
}

#[test]
fn test_format_number() {
    assert_eq!(format_number(123), "123");
    assert_eq!(format_number(1500), "1.5K");
    assert_eq!(format_number(1500000), "1.5M");
    assert_eq!(format_number(-1500), "-1.5K");
}

#[test]
fn test_format_time() {
    assert_eq!(format_time(45), "45s");
    assert_eq!(format_time(90), "1m30s");
    assert_eq!(format_time(3661), "1h01m01s");
    assert_eq!(format_time(90061), "1d01h01m");
}

#[test]
fn test_format_bytes_per_second() {
    assert_eq!(format_bytes_per_second(per_second(512)), "512B/s");
    assert_eq!(format_bytes_per_second(per_second(1536)), "1.5KB/s");
    assert_eq!(format_bytes_per_second(per_second(1572864)), "1.5MB/s");
    assert_eq!(format_bytes_per_second(per_second(1610612736)), "1.5GB/s");
}

#[test]
fn format_number_edges() {
    assert_eq!(format_number(0), "0");
    assert_eq!(format_number(-7), "-7");
    assert_eq!(format_number(999), "999");
    assert_eq!(format_number(1000), "1.0K");
    assert_eq!(format_number(999_949), "999.9K");
    assert_eq!(format_number(999_999), "1000.0K");
    assert_eq!(format_number(1_000_000), "1.0M");
    assert_eq!(format_number(-2_340_000), "-2.3M");
    assert_eq!(format_number(i64::MAX), "9223372036854.8M");
    assert_eq!(format_number(i64::MIN), "-9223372036854.8M");
}

#[test]
fn format_number_rounds_ties_to_even() {
    assert_eq!(format_number(1250), "1.2K");
    assert_eq!(format_number(1350), "1.4K");
    assert_eq!(format_number(1251), "1.3K");
    assert_eq!(format_number(1249), "1.2K");
}

#[test]
fn format_time_edges() {
    assert_eq!(format_time(0), "00s");
    assert_eq!(format_time(5), "05s");
    assert_eq!(format_time(59), "59s");
    assert_eq!(format_time(60), "1m00s");
    assert_eq!(format_time(3599), "59m59s");
    assert_eq!(format_time(3600), "1h00m00s");
    assert_eq!(format_time(86399), "23h59m59s");
    assert_eq!(format_time(86400), "1d00h00m");
    assert_eq!(format_time(u64::MAX), "213503982334601d07h00m");
}

#[test]
fn format_bytes_per_second_edges() {
    assert_eq!(format_bytes_per_second(per_second(0)), "0B/s");
    assert_eq!(format_bytes_per_second(per_second(1023)), "1023B/s");
    assert_eq!(format_bytes_per_second(per_second(1024)), "1.0KB/s");
    assert_eq!(format_bytes_per_second(per_second(1024 * 1024)), "1.0MB/s");
    assert_eq!(format_bytes_per_second(per_second(1024 * 1024 * 1024)), "1.0GB/s");
    assert_eq!(
        format_bytes_per_second(Rate { rising: false, amount: 3072, seconds: 2 }),
        "1.5KB/s"
    );
    assert_eq!(
        format_bytes_per_second(Rate { rising: false, amount: 7, seconds: 2 }),
        "4B/s"
    );
    assert_eq!(
        format_bytes_per_second(Rate { rising: false, amount: 512, seconds: 0 }),
        "0B/s"
    );
}

#[test]
fn format_per_second_has_one_decimal() {
    assert_eq!(format_per_second(Rate { rising: false, amount: 10, seconds: 5 }), "2.0");
    assert_eq!(format_per_second(Rate { rising: false, amount: 1, seconds: 3 }), "0.3");
    assert_eq!(format_per_second(Rate { rising: false, amount: 2, seconds: 3 }), "0.7");
    assert_eq!(format_per_second(Rate { rising: false, amount: 0, seconds: 1 }), "0.0");
    assert_eq!(format_per_second(Rate { rising: false, amount: 9, seconds: 0 }), "0.0");
    assert_eq!(format_per_second(Rate { rising: true, amount: 1234, seconds: 10 }), "123.4");
}

#[test]
fn format_optional_values() {
    assert_eq!(format_optional_rate(None), "N/A");
    assert_eq!(format_optional_rate(Some(per_second(3))), "3.0");
    assert_eq!(format_optional_time(None), "N/A");
    assert_eq!(format_optional_time(Some(90)), "1m30s");
}

#[test]
fn format_eta_names_each_outcome() {
    assert_eq!(format_eta(Eta::Seconds(3661)), "1h01m01s");
    assert_eq!(format_eta(Eta::Calculating), "calculating...");
    assert_eq!(format_eta(Eta::Complete), "complete");
}

#[test]
fn format_percentage_of_nothing_is_zero() {
    assert_eq!(format_percentage(0, 0), "0.0%");
    assert_eq!(format_percentage(17, 0), "0.0%");
    assert_eq!(format_percentage(17, -3), "0.0%");
}

#[test]
fn format_percentage_has_one_decimal() {
    assert_eq!(format_percentage(0, 10), "0.0%");
    assert_eq!(format_percentage(1, 3), "33.3%");
    assert_eq!(format_percentage(2, 3), "66.7%");
    assert_eq!(format_percentage(10, 10), "100.0%");
    assert_eq!(format_percentage(15, 10), "150.0%");
    assert_eq!(format_percentage(1, 8), "12.5%");
}
