use voicemeter::connection::channels::{ChannelInfo, ChannelInfoRecycler};

fn batch(channels: usize) -> ChannelInfo<i32> {
    ChannelInfoRecycler {
        channels,
        default_sample_count: 128,
    }
    .new_element()
}

#[test]
fn samples_take_turns() {
    let mut info = batch(2);
    info.extend_from_interleaved(vec![1, 2, 3, 4, 5, 6]);
    assert_eq!(info.channels, vec![vec![1, 3, 5], vec![2, 4, 6]]);
}

#[test]
fn more_samples_are_appended() {
    let mut info = batch(2);
    info.extend_from_interleaved(vec![1, 2]);
    info.extend_from_interleaved(vec![3, 4]);
    assert_eq!(info.channels, vec![vec![1, 3], vec![2, 4]]);
}

#[test]
fn hanging_samples_go_to_the_first_channels() {
    let mut info = batch(3);
    info.extend_from_interleaved(vec![0, 1, 2, 3, 4]);
    assert_eq!(info.channels, vec![vec![0, 3], vec![1, 4], vec![2]]);
}

#[test]
fn no_samples_change_nothing() {
    let mut info = batch(3);
    info.extend_from_interleaved(vec![]);
    assert_eq!(info.channels, vec![vec![], vec![], Vec::<i32>::new()]);
}

#[test]
fn every_sample_is_kept() {
    let data: Vec<i32> = (100..117).collect();
    let mut info = batch(4);
    info.extend_from_interleaved(data.clone());
    for (idx, sample) in data.iter().enumerate() {
        assert_eq!(info.channels[idx % 4][idx / 4], *sample);
    }
}

#[test]
fn shares_differ_by_one() {
    for len in 0..20usize {
        let mut info = batch(6);
        info.extend_from_interleaved(vec![0; len]);
        for (channel, samples) in info.channels.iter().enumerate() {
            let extra = if channel < len % 6 { 1 } else { 0 };
            assert_eq!(samples.len(), len / 6 + extra);
        }
    }
}

#[test]
fn new_batches_have_room() {
    let info = batch(5);
    assert_eq!(info.channels.len(), 5);
    for samples in &info.channels {
        assert!(samples.is_empty());
        assert!(samples.capacity() >= 128);
    }
    assert_eq!(batch(0).channels.len(), 0);
}

#[test]
fn recycling_empties_a_batch() {
    let recycler = ChannelInfoRecycler {
        channels: 2,
        default_sample_count: 1024,
    };
    let mut info: ChannelInfo<i32> = recycler.new_element();
    info.extend_from_interleaved(vec![1, 2, 3, 4]);
    recycler.recycle(&mut info);
    assert_eq!(info.channels, vec![vec![], Vec::<i32>::new()]);
    for samples in &info.channels {
        // Room that was not used is given back.
        assert!(samples.capacity() < 1024);
    }
}
