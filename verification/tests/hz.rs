use voicemeter::{Hz, HzExt};

#[test]
fn numbers_as_frequencies() {
    assert_eq!(3u8.hz(), Hz(3));
    assert_eq!((-3i8).hz(), Hz(-3));
    assert_eq!(3u16.hz(), Hz(3));
    assert_eq!((-3i16).hz(), Hz(-3));
    assert_eq!(44_100u32.hz(), Hz(44_100));
    assert_eq!((-3i32).hz(), Hz(-3));
    assert_eq!(3u64.hz(), Hz(3));
    assert_eq!((-3i64).hz(), Hz(-3));
    assert_eq!(3usize.hz(), Hz(3));
    assert_eq!((-3isize).hz(), Hz(-3));
    assert_eq!(u64::MAX.hz(), Hz(-1));
}

#[test]
fn multiples() {
    assert_eq!(44u8.khz(), Hz(44_000));
    assert_eq!(44i32.mhz(), Hz(44_000_000));
    assert_eq!((-2i64).ghz(), Hz(-2_000_000_000));
}

#[test]
fn sums_and_differences() {
    assert_eq!(Hz(3) + Hz(4), Hz(7));
    assert_eq!(Hz(3) - Hz(4), Hz(-1));
}

#[test]
fn products_and_quotients() {
    assert_eq!(Hz(3) * 4u8, Hz(12));
    assert_eq!(Hz(3) * -4i8, Hz(-12));
    assert_eq!(Hz(3) * 4u16, Hz(12));
    assert_eq!(Hz(3) * -4i16, Hz(-12));
    assert_eq!(Hz(3) * 4u32, Hz(12));
    assert_eq!(Hz(3) * -4i32, Hz(-12));
    assert_eq!(Hz(3) * 4u64, Hz(12));
    assert_eq!(Hz(3) * -4i64, Hz(-12));
    assert_eq!(Hz(3) * 4usize, Hz(12));
    assert_eq!(Hz(3) * -4isize, Hz(-12));
    assert_eq!(Hz(7) / 2u8, Hz(3));
    assert_eq!(Hz(-7) / 2i8, Hz(-3));
    assert_eq!(Hz(7) / 2u16, Hz(3));
    assert_eq!(Hz(7) / -2i16, Hz(-3));
    assert_eq!(Hz(7) / 2u32, Hz(3));
    assert_eq!(Hz(-7) / -2i32, Hz(3));
    assert_eq!(Hz(7) / 2u64, Hz(3));
    assert_eq!(Hz(7) / -2i64, Hz(-3));
    assert_eq!(Hz(7) / 2usize, Hz(3));
    assert_eq!(Hz(7) / -2isize, Hz(-3));
}

#[test]
fn division_undoes_multiplication() {
    for frequency in [0isize, 1, -1, 44_100, -44_100] {
        for factor in [1i32, -1, 7, -1000] {
            assert_eq!(Hz(frequency) * factor / factor, Hz(frequency));
        }
    }
}

#[test]
fn quotients_are_held() {
    assert_eq!(Hz(isize::MIN) / 1i32, Hz(isize::MIN));
    assert_eq!(Hz(isize::MIN) / -2i32, Hz(-(isize::MIN / 2)));
    assert_eq!(Hz(isize::MAX) / -1i32, Hz(-isize::MAX));
}

#[test]
fn frequencies_as_text() {
    assert_eq!(Hz(1).to_string(), "0.0001 kHz");
    assert_eq!(Hz(10).to_string(), "0.0010 kHz");
    assert_eq!(Hz(440).to_string(), "0.0440 kHz");
    assert_eq!(Hz(1001).to_string(), "1.0001 kHz");
    assert_eq!(Hz(44_100).to_string(), "44.0100 kHz");
    assert_eq!(Hz(-44_100).to_string(), "-44.0100 kHz");
    assert_eq!(Hz(123_456_789).to_string(), "123456.0789 kHz");
    assert_eq!(Hz(0).to_string(), "0 pHz");
    assert_eq!(Hz(48_000).to_string(), "0 pHz");
    assert_eq!(Hz(-48_000).to_string(), "-0 pHz");
    assert_eq!(
        Hz(isize::MAX).to_string(),
        format!("{}.0807 kHz", isize::MAX / 1000)
    );
}
