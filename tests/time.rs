use sprinkler::time::{Interval, Moment, DAY};

#[test]
fn moment_from_hms() {
    let t0 = Moment::from(16, 30, 00);
    assert!(t0.is_some());

    let t1 = Moment::from(01, 01, 00);
    assert!(t1.is_some());

    let t2 = Moment::from(00, 00, 00);
    assert!(t2.is_some());

    let f0 = Moment::from(23, 59, 60);
    assert!(f0.is_none());

    let f1 = Moment::from(00, 86401, 00);
    assert!(f1.is_none());

    let f2 = Moment::from(24, 00, 00);
    assert!(f2.is_none());
}

#[test]
fn moment_from_hms_then_to_string() {
    let t0 = Moment::new(16, 30, 00);
    assert_eq!("16:30:00:000", t0.to_string());

    let t1 = Moment::new(23, 00, 00);
    assert_eq!("23:00:00:000", t1.to_string());

    let t3 = Moment::new(01, 01, 00);
    assert_eq!("01:01:00:000", t3.to_string());
}

#[test]
fn moment_from_hms_then_as_seconds() {
    let t0 = Moment::new(16, 30, 00);
    assert_eq!((16 * 60 * 60) + (30 * 60), t0.as_seconds());

    let t1 = Moment::new(23, 00, 00);
    assert_eq!((23 * 60 * 60), t1.as_seconds());

    let t3 = Moment::new(01, 01, 00);
    assert_eq!((1 * 60 * 60) + (1 * 60), t3.as_seconds());
}

#[test]
fn moment_from_hms_edge_cases() {
    let t0 = Moment::from(00, 00, 00);
    let t1 = Moment::from(24, 00, 00);

    // 24:00:00 is a day's worth of seconds, but not a time of day.
    assert_ne!(t0, t1);
}

#[test]
fn moment_from_string() {
    let t0 = Moment::from_string("16:30:00");
    assert!(t0.is_some());
    assert_eq!(Moment::new(16, 30, 00), t0.unwrap());

    let t1 = Moment::from_string("23:00:00");
    assert!(t1.is_some());
    assert_eq!(Moment::new(23, 00, 00), t1.unwrap());

    let t3 = Moment::from_string("01:01:00");
    assert!(t3.is_some());
    assert_eq!(Moment::new(01, 01, 00), t3.unwrap());
}

#[test]
fn moment_now() {
    let now = Moment::now();
    println!("Time now: {}", now.to_string());
    assert!(now.as_milliseconds() < DAY);
}

#[test]
fn moment_sorted() {
    let sorted_times = vec![
        Moment::new(00, 30, 00),
        Moment::new(01, 30, 00),
        Moment::new(16, 00, 00),
        Moment::new(23, 30, 00),
        Moment::new(23, 59, 59),
    ];

    let mut unsorted_times = vec![
        Moment::new(16, 00, 00),
        Moment::new(01, 30, 00),
        Moment::new(23, 30, 00),
        Moment::new(00, 30, 00),
        Moment::new(23, 59, 59),
    ];

    unsorted_times.sort();

    assert_eq!(sorted_times, unsorted_times);
}

#[test]
fn interval_contains() {
    let i1 = Interval::new(Moment::new(16, 00, 00), Moment::new(16, 30, 00));
    assert!(i1.contains(Moment::new(16, 00, 00)));
    assert!(i1.contains(Moment::new(16, 15, 00)));
    assert!(!i1.contains(Moment::new(16, 30, 00)));

    // Check for correct ordering.
    let i2 = Interval::new(Moment::new(23, 00, 00), Moment::new(01, 00, 00));
    assert_eq!(i2.from, Moment::new(01, 00, 00));
    assert_eq!(i2.to, Moment::new(23, 00, 00));
}

#[test]
fn strict_rejects_end_of_day_and_differs_from_clamp() {
    assert_eq!(Moment::from(23, 59, 60), None);
    assert_eq!(Moment::from(24, 0, 0), None);
    let start = Moment::from(0, 0, 0).unwrap();
    let clamped = Moment::new(24, 0, 0);
    assert_ne!(start, clamped);
    assert_eq!(start.as_milliseconds(), 0);
    assert_eq!(clamped.as_milliseconds(), DAY);
}

#[test]
fn clamping_constructors_saturate() {
    assert_eq!(Moment::new(30, 0, 0).as_milliseconds(), 86_400_000);
    assert_eq!(Moment::from_milliseconds(u64::MAX).as_milliseconds(), 86_400_000);
    assert_eq!(Moment::new(u64::MAX, u64::MAX, u64::MAX).as_milliseconds(), 86_400_000);
    assert_eq!(Moment::new_full(1, 2, 3, 4).as_milliseconds(), 3_723_004);
    assert_eq!(Moment::from_milliseconds(5).as_milliseconds(), 5);
    assert_eq!(Moment::new(24, 0, 0).to_string(), "24:00:00:000");
}

#[test]
fn strict_full_bounds() {
    assert_eq!(Moment::from_full(23, 59, 59, 999).unwrap().as_milliseconds(), 86_399_999);
    assert_eq!(Moment::from_full(23, 59, 59, 1000), None);
    assert_eq!(Moment::from_full(u64::MAX, 0, 0, 0), None);
}

#[test]
fn accessors_decompose() {
    let t = Moment::new_full(13, 45, 7, 250);
    assert_eq!(t.as_hours(), 13);
    assert_eq!(t.as_minutes(), 13 * 60 + 45);
    assert_eq!(t.as_seconds(), 13 * 3600 + 45 * 60 + 7);
    assert_eq!(t.subsec_milliseconds(), 250);
    assert_eq!(t.as_milliseconds(), 49_507_250);
    assert_eq!(t.to_string(), "13:45:07:250");
    assert_eq!(Moment::new(0, 90, 0).to_string(), "01:30:00:000");
}

#[test]
fn text_round_trip() {
    for t in [
        Moment::new(0, 0, 0),
        Moment::new(16, 0, 5),
        Moment::new(23, 59, 59),
        Moment::new_full(7, 8, 9, 10),
    ] {
        assert_eq!(Moment::from_string(&t.to_string()), Some(t));
    }
}

#[test]
fn malformed_text_is_rejected() {
    assert_eq!(Moment::from_string("abc"), None);
    assert_eq!(Moment::from_string("1:2:3:4:5"), None);
    assert_eq!(Moment::from_string(""), None);
    assert_eq!(Moment::from_string("12"), None);
    assert_eq!(Moment::from_string("12:"), None);
    assert_eq!(Moment::from_string("1x:00"), None);
    assert_eq!(Moment::from_string("-1:00"), None);
    assert_eq!(Moment::from_string("18446744073709551616:0"), None);
    assert_eq!(Moment::from_string("24:00:00"), None);
    assert_eq!(Moment::from_string("23:59:59:1000"), None);
}

#[test]
fn text_forms_accepted() {
    assert_eq!(Moment::from_string("7:05"), Some(Moment::new(7, 5, 0)));
    assert_eq!(Moment::from_string("+7:05:09"), Some(Moment::new(7, 5, 9)));
    assert_eq!(Moment::from_string("0:90:00"), Some(Moment::new(1, 30, 0)));
    assert_eq!(Moment::from_string("01:02:03:004"), Some(Moment::new_full(1, 2, 3, 4)));
}

#[test]
fn clock_reading_wraps_at_midnight() {
    assert_eq!(Moment::from_clock(86399, 1500).as_milliseconds(), 500);
    assert_eq!(Moment::from_clock(3600, 250).as_milliseconds(), 3_600_250);
}

#[test]
fn interval_reorders_endpoints() {
    let i = Interval::new(Moment::new(23, 0, 0), Moment::new(1, 0, 0));
    assert_eq!(i.from, Moment::new(1, 0, 0));
    assert_eq!(i.to, Moment::new(23, 0, 0));
    assert!(i.contains(Moment::new(12, 0, 0)));
    assert!(!i.contains(Moment::new(23, 30, 0)));
    let empty = Interval::new(Moment::new(5, 0, 0), Moment::new(5, 0, 0));
    assert!(!empty.contains(Moment::new(5, 0, 0)));
}
