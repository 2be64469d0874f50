use ceph_doctor::monitor::data::estimator::{
    counter_rate, counter_window_rate, eta_to_goal, eta_to_zero, series_rate, window_rate, Eta,
    Rate,
};

const ZERO: Rate = Rate { rising: false, amount: 0, seconds: 1 };

#[test]
fn zero_rate_is_canonical() {
    assert_eq!(Rate::zero(), ZERO);
}

#[test]
fn short_series_have_no_rate() {
    assert_eq!(series_rate(&vec![], 5), ZERO);
    assert_eq!(series_rate(&vec![100], 5), ZERO);
    assert_eq!(series_rate(&vec![100, 50], 5), ZERO);
    assert_eq!(counter_rate(&vec![], 5), ZERO);
    assert_eq!(counter_rate(&vec![7], 5), ZERO);
    assert_eq!(counter_rate(&vec![7, 90], 5), ZERO);
}

#[test]
fn short_series_are_calculating_or_complete() {
    let rate = series_rate(&vec![100, 50], 5);
    assert_eq!(eta_to_zero(50, rate), Eta::Calculating);
    assert_eq!(eta_to_zero(0, rate), Eta::Complete);
    assert_eq!(eta_to_zero(-3, rate), Eta::Complete);
    assert_eq!(eta_to_goal(7, 100, counter_rate(&vec![7, 90], 5)), None);
}

#[test]
fn constant_fall_gives_the_exact_rate() {
    // Falls by 30 every 5 seconds: 6 per second.
    let series = vec![400, 370, 340, 310];
    let rate = series_rate(&series, 5);
    assert_eq!(rate, Rate { rising: false, amount: 90, seconds: 15 });
    assert_eq!(rate.amount as u128 * 5, 30 * rate.seconds);
    // 310 objects at 6 per second: 51 whole seconds.
    assert_eq!(eta_to_zero(310, rate), Eta::Seconds(51));
}

#[test]
fn eta_is_rounded_down() {
    // 7 per 2 seconds.
    let rate = Rate { rising: false, amount: 7, seconds: 2 };
    assert_eq!(eta_to_zero(1, rate), Eta::Seconds(0));
    assert_eq!(eta_to_zero(7, rate), Eta::Seconds(2));
    assert_eq!(eta_to_zero(8, rate), Eta::Seconds(2));
    assert_eq!(eta_to_zero(10, rate), Eta::Seconds(2));
    assert_eq!(eta_to_zero(11, rate), Eta::Seconds(3));
}

#[test]
fn three_samples_are_enough() {
    assert_eq!(
        series_rate(&vec![100, 80, 40], 10),
        Rate { rising: false, amount: 60, seconds: 20 }
    );
}

#[test]
fn rate_uses_oldest_and_newest_only() {
    assert_eq!(
        series_rate(&vec![100, 5000, -7, 90], 1),
        Rate { rising: false, amount: 10, seconds: 3 }
    );
}

#[test]
fn rising_series_give_no_eta_to_zero() {
    let rate = series_rate(&vec![10, 20, 30], 5);
    assert_eq!(rate, Rate { rising: true, amount: 20, seconds: 10 });
    assert_eq!(eta_to_zero(30, rate), Eta::Calculating);
    assert_eq!(eta_to_zero(0, rate), Eta::Complete);
}

#[test]
fn flat_series_have_the_zero_rate() {
    let rate = series_rate(&vec![10, 20, 10], 5);
    assert_eq!(rate, ZERO);
    assert_eq!(eta_to_zero(10, rate), Eta::Calculating);
}

#[test]
fn an_interval_of_zero_gives_no_rate() {
    assert_eq!(series_rate(&vec![30, 20, 10], 0), ZERO);
    assert_eq!(window_rate(30, 10, 3, 0), ZERO);
    assert_eq!(counter_window_rate(10, 30, 3, 0), ZERO);
}

#[test]
fn window_rate_spans_the_whole_range() {
    assert_eq!(
        window_rate(i64::MAX, i64::MIN, 3, 1),
        Rate { rising: false, amount: u64::MAX, seconds: 2 }
    );
    assert_eq!(
        window_rate(i64::MIN, i64::MAX, usize::MAX, u64::MAX),
        Rate {
            rising: true,
            amount: u64::MAX,
            seconds: (usize::MAX as u128 - 1) * (u64::MAX as u128),
        }
    );
    assert_eq!(
        counter_window_rate(0, u64::MAX, 3, 1),
        Rate { rising: true, amount: u64::MAX, seconds: 2 }
    );
}

#[test]
fn eta_is_held_at_the_largest_value() {
    let slow = Rate { rising: false, amount: 1, seconds: u128::MAX };
    assert_eq!(eta_to_zero(1, slow), Eta::Seconds(u64::MAX));
    assert_eq!(eta_to_zero(i64::MAX, slow), Eta::Seconds(u64::MAX));
    let rate = Rate { rising: false, amount: 3, seconds: 1 << 64 };
    // 2 * 2^64 / 3 = 12297829382473034410 and two thirds.
    assert_eq!(eta_to_zero(2, rate), Eta::Seconds(12297829382473034410));
    assert_eq!(eta_to_zero(3, rate), Eta::Seconds(u64::MAX));
}

#[test]
fn rates_without_time_or_amount_project_nothing() {
    assert_eq!(eta_to_zero(5, Rate { rising: false, amount: 4, seconds: 0 }), Eta::Calculating);
    assert_eq!(eta_to_zero(5, Rate { rising: false, amount: 0, seconds: 9 }), Eta::Calculating);
    assert_eq!(eta_to_goal(5, 9, Rate { rising: true, amount: 4, seconds: 0 }), None);
    assert_eq!(eta_to_goal(5, 9, Rate { rising: true, amount: 0, seconds: 4 }), None);
}

#[test]
fn constant_rise_gives_the_exact_rate_and_eta() {
    // Rises by 20 every 10 seconds: 2 per second.
    let series = vec![100, 120, 140, 160, 180];
    let rate = counter_rate(&series, 10);
    assert_eq!(rate, Rate { rising: true, amount: 80, seconds: 40 });
    assert_eq!(eta_to_goal(180, 1000, rate), Some(410));
    assert_eq!(eta_to_goal(180, 181, rate), Some(0));
}

#[test]
fn eta_to_goal_needs_a_rise_and_a_goal_ahead() {
    let rising = Rate { rising: true, amount: 10, seconds: 5 };
    let falling = Rate { rising: false, amount: 10, seconds: 5 };
    assert_eq!(eta_to_goal(50, 100, rising), Some(25));
    assert_eq!(eta_to_goal(100, 100, rising), None);
    assert_eq!(eta_to_goal(101, 100, rising), None);
    assert_eq!(eta_to_goal(50, 100, falling), None);
    assert_eq!(eta_to_goal(50, 100, ZERO), None);
}
