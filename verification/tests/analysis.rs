use voicemeter::analysis::{peak_of, BarInfo, ChannelAnalysis, ChannelAnalysisSet};
use voicemeter::connection::buffer::SampleBuffer;
use voicemeter::connection::channels::ChannelInfo;
use voicemeter::connection::managed::{DeviceInfo, ManagedConnection};
use voicemeter::connection::SampleRate;
use voicemeter::time::Duration;

fn connection(id: usize, channels: u16) -> ManagedConnection<i32> {
    ManagedConnection::new(
        id,
        DeviceInfo {
            name: None,
            channels,
            sample_rate: SampleRate(10),
        },
    )
}

fn fed(channels: Vec<Vec<i32>>) -> ChannelAnalysis {
    let mut connection = connection(0, channels.len() as u16);
    assert_eq!(connection.take_in(Some(&ChannelInfo { channels })), Ok(true));
    ChannelAnalysis::new(connection)
}

fn peak(samples: &[i32]) -> i32 {
    let mut buffer = SampleBuffer::new(SampleRate(1));
    buffer.ingest(samples);
    peak_of(buffer.take(samples.len()))
}

#[test]
fn peaks() {
    assert_eq!(peak(&[]), 0);
    assert_eq!(peak(&[0, 0]), 0);
    assert_eq!(peak(&[3, -7, 5]), 7);
    assert_eq!(peak(&[i32::MIN, 1]), i32::MAX);
    assert_eq!(peak(&[-i32::MAX]), i32::MAX);
}

#[test]
fn starts_in_silence() {
    let analysis = ChannelAnalysis::new(connection(3, 2));
    assert_eq!(analysis.connection.id(), 3);
    assert_eq!(analysis.buffer_duration, Duration::from_secs(3));
    assert_eq!(analysis.smooth_duration, Duration::from_millis(150));
    assert_eq!(analysis.max_decay, vec![0, 0]);
}

#[test]
fn levels_decay() {
    let mut analysis = fed(vec![vec![8], vec![-100]]);
    analysis.with_bar_info(Duration::from_secs(1));
    assert_eq!(analysis.max_decay, vec![8, 100]);
    analysis.decay(|level| level / 2);
    assert_eq!(analysis.max_decay, vec![4, 50]);
}

#[test]
fn levels_of_all_channels() {
    let mut analysis = fed(vec![vec![1, -9, 2, 3], vec![5]]);
    let infos = analysis.with_bar_info(Duration::from_millis(300));
    assert_eq!(
        infos,
        vec![
            // The smooth level is taken from the last two samples.
            BarInfo {
                jagged: 9,
                smooth: 9,
                decaying: 9,
            },
            BarInfo {
                jagged: 5,
                smooth: 5,
                decaying: 5,
            },
        ]
    );
    let infos = analysis.with_bar_info(Duration::from_millis(300));
    assert_eq!(
        infos,
        vec![
            BarInfo {
                jagged: 3,
                smooth: 3,
                decaying: 9,
            },
            BarInfo {
                jagged: 0,
                smooth: 5,
                decaying: 5,
            },
        ]
    );
}

#[test]
fn one_channel_at_a_time() {
    let mut analysis = fed(vec![vec![1], vec![-2]]);
    let info = analysis.channel_info(1, Duration::from_secs(1));
    assert_eq!(info.jagged, 2);
    assert_eq!(analysis.max_decay, vec![0, 2]);
    assert_eq!(analysis.connection.buffers()[0].buffer_len(), 1);
    assert_eq!(analysis.connection.buffers()[1].buffer_len(), 0);
}

#[test]
fn samples_are_kept_for_three_seconds() {
    let mut analysis = fed(vec![(0..100).collect()]);
    analysis.with_bar_info(Duration::from_secs(10));
    assert_eq!(analysis.connection.buffers()[0].backbuffer_len(), 30);
}

#[test]
fn levels_are_in_order() {
    let mut analysis = fed(vec![vec![4, -30, 12, 7, 0, -1, 25, 3]]);
    let mut last = 0;
    for _ in 0..8 {
        let info = analysis.channel_info(0, Duration::from_millis(100));
        assert!(0 <= info.jagged);
        assert!(info.jagged <= info.decaying);
        assert!(0 <= info.smooth);
        assert!(last <= info.decaying);
        last = info.decaying;
    }
    assert_eq!(last, 30);
}

#[test]
fn newest_level_is_not_above_the_smooth_one() {
    let mut analysis = fed(vec![vec![4, -30, 12, 7, 0, i32::MIN, 25, 3]]);
    for _ in 0..8 {
        let info = analysis.channel_info(0, Duration::from_millis(100));
        assert!(info.jagged <= info.smooth);
    }
}

#[test]
fn frame_that_is_not_kept_does_not_count_for_the_smooth_level() {
    // Two samples make up 150 ms at 10 Hz, and only one fits into it.
    let mut analysis = fed(vec![vec![-9, 2]]);
    analysis.buffer_duration = Duration::from_millis(150);
    let info = analysis.channel_info(0, Duration::from_millis(150));
    assert_eq!(info.jagged, 9);
    assert_eq!(info.smooth, 2);
    assert_eq!(analysis.connection.buffers()[0].backbuffer_len(), 1);
}

#[test]
fn selection() {
    let mut set = ChannelAnalysisSet::new(vec![connection(0, 1), connection(1, 2)]);
    assert_eq!(set.devices.len(), 2);
    assert_eq!(set.devices[1].connection.id(), 1);
    assert!(!set.showing_detail());
    assert!(set.detail_channel_mut().is_none());

    set.select(1, 1);
    assert!(set.showing_detail());
    assert!(set.is_selected(1, 1));
    assert!(!set.is_selected(1, 0));
    assert!(!set.is_selected(0, 1));
    set.rectify_selected();
    assert!(set.is_selected(1, 1));
}

#[test]
fn selected_buffer_can_be_changed() {
    let mut set = ChannelAnalysisSet::new(vec![connection(0, 1), connection(1, 2)]);
    set.select(1, 0);
    set.detail_channel_mut().unwrap().ingest(&[1, 2, 3]);
    assert_eq!(set.devices[1].connection.buffers()[0].buffer_len(), 3);
    assert_eq!(set.devices[1].connection.buffers()[1].buffer_len(), 0);
    assert_eq!(set.devices[0].connection.buffers()[0].buffer_len(), 0);
}

#[test]
fn channels_that_are_gone_are_not_selected() {
    let mut set = ChannelAnalysisSet::new(vec![connection(0, 1)]);
    set.select(0, 1);
    set.rectify_selected();
    assert!(!set.showing_detail());
    set.select(1, 0);
    assert!(set.detail_channel_mut().is_none());
    assert!(!set.showing_detail());
}
