use cid::duration::{format_duration, label_duration, Duration};

fn expected(secs: u64, nanos: u32) -> String {
    let duration = std::time::Duration::new(secs, nanos);
    if duration.as_millis() < 1000 {
        format!("{}ms", duration.as_millis())
    } else {
        format!("{:.1}s", duration.as_secs_f64())
    }
}

#[test]
fn a_duration_is_in_seconds_and_nanoseconds() {
    let duration = Duration::new(3, 250_000_000);
    assert_eq!(duration.as_secs(), 3);
    assert_eq!(duration.subsec_nanos(), 250_000_000);
    assert_eq!(duration, Duration::from_millis(3250));
    assert_eq!(Duration::from_secs(3), Duration::from_millis(3000));
}

#[test]
fn what_is_left_of_a_duration_is_never_negative() {
    let left = |a: u64, b: u64| Duration::from_millis(a).saturating_sub(Duration::from_millis(b));
    assert_eq!(left(14_600, 600), Duration::from_secs(14));
    assert_eq!(left(14_100, 600), Duration::from_millis(13_500));
    assert_eq!(left(600, 600), Duration::from_secs(0));
    assert_eq!(left(600, 14_600), Duration::from_secs(0));
    assert_eq!(left(14_100, 14_600), Duration::from_secs(0));
}

#[test]
fn durations_are_rounded_to_the_nearest_tenth() {
    assert_eq!(format_duration(Duration::from_millis(1049)), "1.0s");
    assert_eq!(format_duration(Duration::from_millis(1051)), "1.1s");
    assert_eq!(format_duration(Duration::from_millis(9960)), "10.0s");
    assert_eq!(format_duration(Duration::new(0, 999_999_999)), "999ms");
    assert_eq!(format_duration(Duration::from_secs(3600)), "3600.0s");
}

#[test]
fn durations_are_shown_as_a_double_shows_them() {
    for secs in [0, 1, 2, 59, 60, 3599, 86_400, 16_777_215, 4_294_967_296, u64::MAX] {
        for nanos in (0..1_000_000_000).step_by(24_999_999).chain([50_000_000, 250_000_000, 999_999_999]) {
            assert_eq!(format_duration(Duration::new(secs, nanos)), expected(secs, nanos));
        }
    }
}

#[test]
fn below_two_to_the_twenty_fourth_seconds_the_tenth_is_a_nearest_one() {
    for secs in [1, 3, 1000, 16_777_214, 16_777_215] {
        for tie in (0..10).map(|tenth| tenth * 100_000_000 + 50_000_000) {
            for nanos in [tie - 1, tie, tie + 1] {
                let shown = format_duration(Duration::new(secs, nanos));
                let tenths: i128 = shown.trim_end_matches('s').replace('.', "").parse().unwrap();
                let apart = tenths * 100_000_000 - (secs as i128 * 1_000_000_000 + nanos as i128);
                assert!(apart.abs() <= 50_000_000, "{secs} {nanos}: {shown}");
            }
        }
    }
}

#[test]
fn a_duration_is_labelled_with_its_unit() {
    assert_eq!(label_duration(Duration::from_millis(12), "unused"), "12ms");
    assert_eq!(label_duration(Duration::from_millis(1200), "1.2"), "1.2s");
    assert_eq!(label_duration(Duration::from_secs(1), "one"), "ones");
}
