use profiler::time::{MAX_NANOS, NANOS_PER_MICRO, NANOS_PER_MILLI, NANOS_PER_SEC};
use profiler::Duration;

#[test]
fn spans_count_nanoseconds() {
    assert_eq!(Duration::zero().as_nanos(), 0);
    assert_eq!(Duration::default(), Duration::zero());
    assert_eq!(Duration::from_nanos(17).as_nanos(), 17);
    assert_eq!(Duration::from_micros(17).as_nanos(), 17_000);
    assert_eq!(Duration::from_millis(17).as_nanos(), 17_000_000);
    assert_eq!(Duration::from_secs(17).as_nanos(), 17_000_000_000);
    assert_eq!(Duration::from_secs(u64::MAX).as_nanos(), u64::MAX as u128 * 1_000_000_000);
    assert_eq!(Duration::from_millis(u64::MAX).as_nanos(), u64::MAX as u128 * 1_000_000);
    assert_eq!(NANOS_PER_SEC, 1_000_000_000);
    assert_eq!(NANOS_PER_MILLI, 1_000_000);
    assert_eq!(NANOS_PER_MICRO, 1_000);
    assert_eq!(MAX_NANOS, u64::MAX as u128 * 1_000_000_000 + 999_999_999);
}

#[test]
fn parts_make_a_span_where_it_fits() {
    assert_eq!(Duration::from_parts(2, 5).unwrap().as_nanos(), 2_000_000_005);
    assert_eq!(Duration::from_parts(1, 2_500_000_000).unwrap(), Duration::from_millis(3500));
    assert_eq!(Duration::from_parts(u64::MAX, 999_999_999).unwrap().as_nanos(), MAX_NANOS);
    assert_eq!(Duration::from_parts(u64::MAX, 1_000_000_000), None);
    assert_eq!(Duration::from_parts(u64::MAX - 4, u32::MAX).unwrap().as_secs(), u64::MAX);
    assert_eq!(Duration::from_parts(u64::MAX - 3, u32::MAX), None);
}

#[test]
fn a_span_in_other_units() {
    let span = Duration::from_parts(3, 123_456_789).unwrap();
    assert_eq!(span.as_secs(), 3);
    assert_eq!(span.subsec_nanos(), 123_456_789);
    assert_eq!(span.as_micros(), 3_123_456);
    assert_eq!(span.as_nanos(), 3_123_456_789);
    let longest = Duration::from_parts(u64::MAX, 999_999_999).unwrap();
    assert_eq!(longest.as_secs(), u64::MAX);
    assert_eq!(longest.subsec_nanos(), 999_999_999);
    assert_eq!(Duration::from_nanos(1_999).as_micros(), 1);
    assert_eq!(Duration::from_nanos(999).as_micros(), 0);
}

#[test]
fn sums_and_differences() {
    let a = Duration::from_millis(100);
    let b = Duration::from_millis(30);
    let longest = Duration::from_parts(u64::MAX, 999_999_999).unwrap();
    assert_eq!(a.checked_add(b), Some(Duration::from_millis(130)));
    assert_eq!(longest.checked_add(Duration::zero()), Some(longest));
    assert_eq!(longest.checked_add(Duration::from_nanos(1)), None);
    assert_eq!(a.saturating_add(b), Duration::from_millis(130));
    assert_eq!(longest.saturating_add(a), longest);
    assert_eq!(a.checked_sub(b), Some(Duration::from_millis(70)));
    assert_eq!(a.checked_sub(a), Some(Duration::zero()));
    assert_eq!(b.checked_sub(a), None);
    assert_eq!(a.saturating_sub(b), Duration::from_millis(70));
    assert_eq!(b.saturating_sub(a), Duration::zero());
}

#[test]
fn spans_are_ordered_by_length() {
    assert!(Duration::from_millis(50) >= Duration::from_millis(50));
    assert!(Duration::from_parts(1, 0).unwrap() > Duration::from_nanos(999_999_999));
    assert!(Duration::from_nanos(1) < Duration::from_micros(1));
    assert_eq!(Duration::from_micros(1_000), Duration::from_millis(1));
    assert_ne!(Duration::from_micros(1_001), Duration::from_millis(1));
}
