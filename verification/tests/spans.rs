use voicemeter::time::{Duration, NANOS_PER_SEC};

#[test]
fn spans_of_time() {
    assert_eq!(Duration::from_secs(2), Duration::new(2, 0));
    assert_eq!(Duration::from_millis(1250), Duration::new(1, 250_000_000));
    assert_eq!(Duration::from_nanos(3_000_000_007), Duration::new(3, 7));
    assert_eq!(Duration::new(1, 2 * NANOS_PER_SEC + 5), Duration::new(3, 5));
    assert_eq!(Duration::from_millis(999).as_secs(), 0);
    assert_eq!(Duration::from_millis(999).subsec_nanos(), 999_000_000);
    assert_eq!(Duration::from_millis(u64::MAX).as_secs(), 18_446_744_073_709_551);
    assert_eq!(Duration::from_nanos(u64::MAX).subsec_nanos(), 709_551_615);
}
