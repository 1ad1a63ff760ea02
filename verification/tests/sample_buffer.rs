use voicemeter::connection::buffer::{SampleBuffer, SampleIter};
use voicemeter::connection::SampleRate;
use voicemeter::time::Duration;
use voicemeter::Hz;

fn collect(iter: SampleIter<'_, i32>) -> Vec<i32> {
    let mut iter = iter;
    let mut out = Vec::new();
    while let Some(item) = iter.next() {
        out.push(*item);
    }
    out
}

fn filled(rate: u32, samples: &[i32]) -> SampleBuffer<i32> {
    let mut buffer = SampleBuffer::new(SampleRate(rate));
    buffer.ingest(samples);
    buffer
}

#[test]
fn constructable() {
    SampleBuffer::<i32>::new(SampleRate(1));
}

#[test]
fn buffer_samples() {
    let mut buffer = SampleBuffer::<i32>::new(SampleRate(1));
    let data = std::array::from_fn::<_, 32, _>(|idx| idx as _);
    buffer.ingest(&data);

    assert_eq!(collect(buffer.backbuffer()), []);

    let new_samples = collect(buffer.take(32));
    assert_eq!(new_samples, &data);

    assert_eq!(collect(buffer.backbuffer()), &data);

    buffer.trim_backbuffer(16);
    assert_eq!(collect(buffer.backbuffer()), &data[16..32]);
}

#[test]
fn lengths_and_position() {
    let mut buffer = filled(10, &[1, 2, 3, 4, 5]);
    assert_eq!(buffer.buffer_len(), 5);
    assert_eq!(buffer.backbuffer_len(), 0);
    assert_eq!(buffer.absolute_sample(), 0);
    assert_eq!(buffer.take(3).len(), 3);
    assert_eq!(buffer.buffer_len(), 2);
    assert_eq!(buffer.backbuffer_len(), 3);
    assert_eq!(buffer.absolute_sample(), 3);
    buffer.trim_backbuffer(1);
    assert_eq!(buffer.buffer_len(), 2);
    assert_eq!(buffer.backbuffer_len(), 1);
    assert_eq!(buffer.absolute_sample(), 3);
    assert_eq!(buffer.sample_rate(), Hz(10));
}

#[test]
fn takes_no_more_than_there_are() {
    let mut buffer = filled(10, &[1, 2]);
    assert_eq!(collect(buffer.take(100)), vec![1, 2]);
    assert_eq!(collect(buffer.take(100)), vec![]);
    assert_eq!(collect(buffer.take(0)), vec![]);
    assert_eq!(buffer.absolute_sample(), 2);
}

#[test]
fn taking_keeps_samples() {
    let mut buffer = filled(10, &[1, 2, 3, 4]);
    buffer.take(1);
    buffer.take(2);
    assert_eq!(collect(buffer.backbuffer()), vec![1, 2, 3]);
    assert_eq!(collect(buffer.take(1)), vec![4]);
    assert_eq!(collect(buffer.backbuffer()), vec![1, 2, 3, 4]);
}

#[test]
fn takes_compose() {
    let mut apart = filled(10, &[1, 2, 3, 4]);
    let mut at_once = filled(10, &[1, 2, 3, 4]);
    let mut seen = collect(apart.take(1));
    seen.extend(collect(apart.take(2)));
    assert_eq!(seen, collect(at_once.take(3)));
    assert_eq!(apart.buffer_len(), at_once.buffer_len());
}

#[test]
fn samples_come_out_in_order() {
    let mut buffer = filled(10, &[1, 2]);
    buffer.ingest(&[3, 4, 5]);
    assert_eq!(collect(buffer.take(2)), vec![1, 2]);
    assert_eq!(collect(buffer.take(3)), vec![3, 4, 5]);
}

#[test]
fn trimming_keeps_the_newest() {
    let mut buffer = filled(10, &[1, 2, 3, 4, 5]);
    buffer.take(4);
    buffer.trim_backbuffer(9);
    assert_eq!(collect(buffer.backbuffer()), vec![1, 2, 3, 4]);
    buffer.trim_backbuffer(3);
    buffer.trim_backbuffer(2);
    assert_eq!(collect(buffer.backbuffer()), vec![3, 4]);
    assert_eq!(buffer.buffer_len(), 1);
    buffer.trim_backbuffer(0);
    assert_eq!(collect(buffer.backbuffer()), vec![]);
    assert_eq!(collect(buffer.take(1)), vec![5]);
}

#[test]
fn durations() {
    let mut buffer = filled(3, &[1, 2, 3, 4]);
    assert_eq!(buffer.buffer_duration(), Duration::new(1, 333_333_333));
    buffer.take(1);
    assert_eq!(buffer.backbuffer_duration(), Duration::new(0, 333_333_333));
    assert_eq!(buffer.buffer_duration(), Duration::from_secs(1));
    assert_eq!(buffer.duration_for_samples(0), Duration::from_nanos(0));
    assert_eq!(buffer.duration_for_samples(2), Duration::new(0, 666_666_666));
    assert_eq!(
        buffer.duration_for_samples(u32::MAX),
        Duration::from_secs(1_431_655_765)
    );
    assert_eq!(
        filled(1, &[]).duration_for_samples(u32::MAX),
        Duration::from_secs(4_294_967_295)
    );
}

#[test]
fn durations_agree_with_std() {
    for rate in [1u32, 3, 7, 44_100, 48_000, 192_000, u32::MAX] {
        let buffer = filled(rate, &[]);
        for samples in [0u32, 1, 2, 1000, 44_099, 123_456_789, u32::MAX] {
            let expected = std::time::Duration::from_secs(1) * samples / rate;
            let span = buffer.duration_for_samples(samples);
            assert_eq!(span.as_secs(), expected.as_secs());
            assert_eq!(span.subsec_nanos(), expected.subsec_nanos());
        }
    }
}

#[test]
fn counts_for_durations() {
    let buffer = filled(100, &[]);
    assert_eq!(buffer.samples_for_duration(Duration::from_nanos(0)), 0);
    assert_eq!(buffer.samples_for_duration(Duration::from_nanos(1)), 1);
    assert_eq!(buffer.samples_for_duration(Duration::from_millis(10)), 1);
    assert_eq!(buffer.samples_for_duration(Duration::from_millis(11)), 2);
    // 0.07 is not a double; the nearest one is above it, and so is the product.
    assert_eq!(buffer.samples_for_duration(Duration::from_millis(70)), 8);
    assert_eq!(
        filled(44_100, &[]).samples_for_duration(Duration::from_millis(150)),
        6615
    );
    assert_eq!(
        filled(0, &[]).samples_for_duration(Duration::from_secs(5)),
        0
    );
}

#[test]
fn whole_seconds_are_exact() {
    assert_eq!(
        filled(44_100, &[]).samples_for_duration(Duration::from_secs(3)),
        132_300
    );
    assert_eq!(
        filled(u32::MAX, &[]).samples_for_duration(Duration::from_secs(2_000_000)),
        8_589_934_590_000_000
    );
}

#[test]
fn longer_spans_have_no_fewer_samples() {
    let buffer = filled(44_100, &[]);
    let mut last = 0;
    for step in 0..20_000u64 {
        let count = buffer.samples_for_duration(Duration::from_nanos(step * 12_347));
        assert!(count >= last);
        last = count;
    }
    let most = buffer.samples_for_duration(Duration::new(u64::MAX, 999_999_999));
    assert_eq!(most, usize::MAX);
    assert!(buffer.samples_for_duration(Duration::new(1 << 53, 0)) <= most);
}

fn reference_count(secs: u64, nanos: u32, rate: u32) -> usize {
    let duration = std::time::Duration::new(secs, nanos);
    (duration.as_secs_f64() * rate as f64).ceil() as usize
}

#[test]
fn counts_agree_with_floating_point() {
    let mut state: u64 = 0x9e37_79b9_7f4a_7c15;
    let mut next = move || {
        state ^= state << 13;
        state ^= state >> 7;
        state ^= state << 17;
        state
    };
    for round in 0..200_000u32 {
        let secs = match round % 4 {
            0 => 0,
            1 => next() % 100,
            2 => next() >> (next() % 64),
            _ => next(),
        };
        let nanos = match round % 3 {
            0 => (next() % 1000) as u32 * 1_000_000,
            1 => (next() % 1_000_000_000) as u32,
            _ => (next() % 16) as u32,
        };
        let rate = match round % 5 {
            0 => 44_100,
            1 => 48_000,
            2 => next() as u32,
            3 => (next() % 200) as u32,
            _ => 1 << (next() % 32),
        };
        let buffer = filled(rate, &[]);
        assert_eq!(
            buffer.samples_for_duration(Duration::new(secs, nanos)),
            reference_count(secs, nanos, rate),
            "{secs} s {nanos} ns at {rate}"
        );
    }
}

#[test]
fn takes_and_trims_by_duration() {
    let mut buffer = filled(2, &[1, 2, 3, 4, 5, 6]);
    assert_eq!(
        collect(buffer.take_duration(Duration::from_millis(1500))),
        vec![1, 2, 3]
    );
    assert_eq!(
        collect(buffer.take_duration(Duration::from_millis(400))),
        vec![4]
    );
    buffer.trim_backbuffer_duration(Duration::from_secs(1));
    assert_eq!(collect(buffer.backbuffer()), vec![3, 4]);
}

#[test]
fn trimmed_backbuffer_is_not_longer_than_the_duration() {
    let mut buffer = filled(1, &[1, 2, 3, 4]);
    buffer.take(4);
    buffer.trim_backbuffer_duration(Duration::from_millis(1500));
    assert_eq!(collect(buffer.backbuffer()), vec![4]);
    assert_eq!(buffer.backbuffer_duration(), Duration::from_secs(1));

    // As many samples as fit, where counting them in double precision gives one more.
    let mut buffer = filled(100, &[0; 20]);
    buffer.take(20);
    buffer.trim_backbuffer_duration(Duration::from_millis(70));
    assert_eq!(buffer.backbuffer_len(), 7);

    let mut silent = filled(0, &[1, 2]);
    silent.take(2);
    silent.trim_backbuffer_duration(Duration::from_secs(9));
    assert_eq!(silent.backbuffer_len(), 0);

    let mut kept = filled(u32::MAX, &[1, 2]);
    kept.take(2);
    kept.trim_backbuffer_duration(Duration::new(u64::MAX, 999_999_999));
    assert_eq!(kept.backbuffer_len(), 2);
}

#[test]
fn kept_samples_are_counted() {
    for rate in [1u32, 3, 10, 44_100] {
        for millis in [0u64, 1, 70, 150, 333, 999, 1001] {
            let span = Duration::from_millis(millis);
            let mut buffer = filled(rate, &[0; 50_000]);
            buffer.take(50_000);
            buffer.trim_backbuffer_duration(span);
            assert!(buffer.backbuffer_len() <= buffer.samples_for_duration(span));
            assert_eq!(buffer.backbuffer_len() as u64, millis * rate as u64 / 1000);
        }
    }
}

#[test]
fn iter_skips() {
    let mut buffer = filled(1, &[1, 2, 3]);
    let iter = buffer.take(3);
    assert_eq!(iter.len(), 3);
    assert_eq!(collect(iter.skip(1)), vec![2, 3]);
    assert_eq!(collect(buffer.backbuffer().skip(0)), vec![1, 2, 3]);
    assert_eq!(collect(buffer.backbuffer().skip(7)), vec![]);
}
