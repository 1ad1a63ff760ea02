use voicemeter::fft::{Fft, FftDirection, FftResult, FftSize, PreprocessWindow};
use voicemeter::Hz;

fn sized(size: FftSize) -> Fft<i64> {
    Fft::<i64>::builder().with_size(size).build(0i64)
}

fn double(samples: Vec<i64>) -> Vec<i64> {
    samples.into_iter().map(|it| 2 * it).collect()
}

fn triple(item: &i32) -> i64 {
    3 * *item as i64
}

fn plus(value: i64, max: usize) -> i64 {
    value + max as i64
}

#[test]
fn sizes() {
    assert_eq!(FftSize::default(), FftSize::Samples2048);
    assert_eq!(FftSize::Samples1024.samples(), 1024);
    assert_eq!(FftSize::Samples2048.samples(), 2048);
    assert_eq!(FftSize::Samples4096.samples(), 4096);
    assert_eq!(FftSize::from(0), FftSize::Samples1024);
    assert_eq!(FftSize::from(1024), FftSize::Samples1024);
    assert_eq!(FftSize::from(1025), FftSize::Samples2048);
    assert_eq!(FftSize::from(2048), FftSize::Samples2048);
    assert_eq!(FftSize::from(2049), FftSize::Samples4096);
    assert_eq!(FftSize::from(usize::MAX), FftSize::Samples4096);
}

#[test]
fn size_is_found_again() {
    for size in [
        FftSize::Samples1024,
        FftSize::Samples2048,
        FftSize::Samples4096,
    ] {
        assert_eq!(FftSize::from(size.samples()), size);
        assert_eq!(sized(size).size(), size);
        assert_eq!(sized(size).output_length(), size.samples() / 2);
    }
}

#[test]
fn builder_choices() {
    let builder = Fft::<i64>::builder();
    assert_eq!(builder.size, FftSize::Samples2048);
    assert_eq!(builder.direction, FftDirection::Forward);
    assert_eq!(builder.window, PreprocessWindow::NoWindow);
    let other = builder
        .with_size(FftSize::Samples4096)
        .with_direction(FftDirection::Inverse)
        .with_window(PreprocessWindow::default());
    assert_eq!(other.size, FftSize::Samples4096);
    assert_eq!(other.direction, FftDirection::Inverse);
    assert_eq!(other.window, PreprocessWindow::NoWindow);
}

#[test]
fn direction_is_kept() {
    for direction in [FftDirection::Forward, FftDirection::Inverse] {
        let mut fft = Fft::<i64>::builder().with_direction(direction).build(0i64);
        assert_eq!(fft.direction(), direction);
        fft.set_window(PreprocessWindow::NoWindow);
        fft.process_fft_converting(&[1i32; 2048], triple, double, plus);
        assert_eq!(fft.direction(), direction);
    }
}

#[test]
fn spectrum_depends_on_newest_samples() {
    let newest: Vec<i32> = (0..1024).map(|it| it * it).collect();
    let mut longer = vec![-5i32; 300];
    longer.extend(&newest);

    let mut fresh = sized(FftSize::Samples1024);
    let expected = fresh
        .process_fft_converting(&newest, triple, double, plus)
        .unwrap();
    let mut used = sized(FftSize::Samples1024);
    used.process_fft_converting(&[9i32; 1024], triple, double, plus);
    let result = used
        .process_fft_converting(&longer, triple, double, plus)
        .unwrap();
    let again = used.get_result(plus).unwrap();
    assert_eq!(result.len(), expected.len());
    for i in 0..expected.len() {
        assert_eq!(result[i].value, expected[i].value);
        assert_eq!(again[i].value, expected[i].value);
    }
}

#[test]
fn windows() {
    let mut fft = sized(FftSize::Samples1024);
    assert_eq!(fft.window(), PreprocessWindow::NoWindow);
    fft.set_window(PreprocessWindow::NoWindow);
    assert_eq!(fft.window(), PreprocessWindow::NoWindow);
    assert_eq!(PreprocessWindow::NoWindow.process(7, 3, 16), 7);
}

#[test]
fn no_result_at_first() {
    assert!(sized(FftSize::Samples1024).get_result(plus).is_none());
}

#[test]
fn too_few_samples() {
    let mut fft = sized(FftSize::Samples1024);
    let data = vec![1i32; 1023];
    assert!(fft.input_samples(&data, triple).is_none());
    assert!(fft
        .process_fft_converting(&data, triple, double, plus)
        .is_none());
    assert!(fft.get_result(plus).is_none());
}

#[test]
fn newest_samples_are_taken() {
    let fft = sized(FftSize::Samples1024);
    let data: Vec<i32> = (0..1030).collect();
    let samples = fft.input_samples(&data, triple).unwrap();
    assert_eq!(samples.len(), 1024);
    assert_eq!(samples[0], 18);
    assert_eq!(samples[1023], 3 * 1029);
}

#[test]
fn first_half_is_the_result() {
    let mut fft = sized(FftSize::Samples1024);
    let data: Vec<i32> = (0..1024).collect();
    let result = fft
        .process_fft_converting(&data, triple, double, plus)
        .unwrap();
    assert_eq!(result.len(), 512);
    for (index, point) in result.iter().enumerate() {
        assert_eq!(point.index, index);
        assert_eq!(point.max, 512);
        assert_eq!(point.value, 6 * index as i64 + 512);
    }
    let again = fft.get_result(plus).unwrap();
    assert_eq!(again.len(), 512);
    assert_eq!(again[511].value, result[511].value);
}

#[test]
fn result_stays_when_samples_run_out() {
    let mut fft = sized(FftSize::Samples1024);
    let data = vec![5i32; 1024];
    assert!(fft
        .process_fft_converting(&data, triple, double, plus)
        .is_some());
    assert!(fft
        .process_fft_converting(&data[1..], triple, double, plus)
        .is_none());
    assert_eq!(fft.get_result(plus).unwrap()[0].value, 30 + 512);
}

fn point(index: usize, max: usize) -> FftResult<i64> {
    FftResult {
        value: 0,
        index,
        max,
    }
}

#[test]
fn frequencies() {
    assert_eq!(point(0, 512).frequency(Hz(44_100)), Hz(0));
    assert_eq!(point(1, 512).frequency(Hz(44_100)), Hz(43));
    assert_eq!(point(10, 512).frequency(Hz(44_100)), Hz(430));
    assert_eq!(point(511, 512).frequency(Hz(44_100)), Hz(22_006));
    assert_eq!(point(256, 512).frequency(Hz(48_000)), Hz(12_000));
}

#[test]
fn frequencies_cover_half_the_rate() {
    let mut last = Hz(0);
    for index in 0..1024 {
        let frequency = point(index, 1024).frequency(Hz(44_100));
        assert!(frequency >= last);
        assert!(frequency <= Hz(22_050));
        last = frequency;
    }
}
