//! The levels of the channels of the connected devices, and the channel that is looked at closely.

use vstd::prelude::*;

use crate::connection::buffer::{SampleBuffer, SampleBufferView, SampleIter};
use crate::connection::managed::ManagedConnection;
use crate::time::Duration;

verus! {

/// The distance of a sample from zero, as far as it can be held.
pub open spec fn magnitude(sample: i32) -> i32 {
    if sample == i32::MIN {
        i32::MAX
    } else if sample < 0 {
        (-sample) as i32
    } else {
        sample
    }
}

/// The larger of two levels.
pub open spec fn larger(a: i32, b: i32) -> i32 {
    if a < b {
        b
    } else {
        a
    }
}

/// The largest magnitude among `samples`, or zero where there are none.
pub open spec fn peak(samples: Seq<i32>) -> i32
    decreases samples.len(),
{
    if samples.len() == 0 {
        0
    } else {
        larger(peak(samples.drop_last()), magnitude(samples.last()))
    }
}

/// The levels of a channel, from zero to the largest sample there is.
#[derive(Debug, Clone, Copy, PartialEq, Eq, Structural)]
pub struct BarInfo {
    /// The level of the newest samples
    pub jagged: i32,
    /// The level of the last moments
    pub smooth: i32,
    /// The highest level there was, which decays with time
    pub decaying: i32,
}

/// Computes [`magnitude`].
fn saturating_abs(sample: i32) -> (result: i32)
    ensures
        result == magnitude(sample),
{
    if sample == i32::MIN {
        i32::MAX
    } else if sample < 0 {
        -sample
    } else {
        sample
    }
}

/// Computes [`peak`].
pub fn peak_of(samples: SampleIter<'_, i32>) -> (result: i32)
    ensures
        result == peak(samples@),
{
    let ghost all = samples@;
    let mut rest = samples;
    let mut level: i32 = 0;
    let mut seen: usize = 0;
    let count: usize = rest.len();
    assert(all.skip(0) =~= all);
    while seen < count
        invariant
            seen <= count,
            count == all.len(),
            rest@ == all.skip(seen as int),
            level == peak(all.take(seen as int)),
        decreases count - seen,
    {
        if let Some(sample) = rest.next() {
            let magnitude: i32 = saturating_abs(*sample);
            if level < magnitude {
                level = magnitude;
            }
        }
        assert(all.take(seen + 1).drop_last() =~= all.take(seen as int));
        assert(all.skip(seen as int).drop_first() =~= all.skip(seen + 1));
        seen += 1;
    }
    assert(all.take(count as int) =~= all);
    level
}

/// The samples of a device, and what is remembered of their levels.
pub struct ChannelAnalysis {
    /// The samples
    pub connection: ManagedConnection<i32>,
    /// For how long samples are kept once they were looked at
    pub buffer_duration: Duration,
    /// The time that the smooth level is taken from
    pub smooth_duration: Duration,
    /// The highest level of each channel, which decays with time
    pub max_decay: Vec<i32>,
}

impl ChannelAnalysis {
    /// What every analysis keeps: there is a decaying level for each channel.
    pub open spec fn wf(&self) -> bool {
        &&& self.connection.wf()
        &&& self.max_decay@.len() == self.connection.contents().len()
    }

    /// Starts with silence. Samples are kept for three seconds, and the smooth level is that of
    /// the last 150 milliseconds.
    pub fn new(connection: ManagedConnection<i32>) -> (analysis: Self)
        requires
            connection.wf(),
        ensures
            analysis.wf(),
            analysis.connection == connection,
            analysis.buffer_duration@ == 3_000_000_000,
            analysis.smooth_duration@ == 150_000_000,
            analysis.max_decay@ == Seq::new(connection.contents().len(), |c: int| 0i32),
    {
        let channels: usize = connection.channels();
        let mut max_decay: Vec<i32> = Vec::new();
        while max_decay.len() < channels
            invariant
                max_decay@.len() <= channels,
                forall|c: int| 0 <= c < max_decay@.len() ==> max_decay@[c] == 0,
            decreases channels - max_decay@.len(),
        {
            max_decay.push(0);
        }
        assert(max_decay@ =~= Seq::new(connection.contents().len(), |c: int| 0i32));
        ChannelAnalysis {
            connection,
            buffer_duration: Duration::from_secs(3),
            smooth_duration: Duration::from_millis(150),
            max_decay,
        }
    }

    /// Lets the decaying levels decay: `decay` says how far.
    pub fn decay<F: Fn(i32) -> i32>(&mut self, decay: F)
        requires
            forall|level: i32| call_requires(decay, (level,)),
        ensures
            final(self).connection == old(self).connection,
            final(self).buffer_duration == old(self).buffer_duration,
            final(self).smooth_duration == old(self).smooth_duration,
            final(self).max_decay@.len() == old(self).max_decay@.len(),
            forall|c: int|
                0 <= c < old(self).max_decay@.len() ==> call_ensures(
                    decay,
                    (old(self).max_decay@[c],),
                    #[trigger] final(self).max_decay@[c],
                ),
    {
        let mut idx: usize = 0;
        while idx < self.max_decay.len()
            invariant
                idx <= self.max_decay@.len(),
                self.connection == old(self).connection,
                self.buffer_duration == old(self).buffer_duration,
                self.smooth_duration == old(self).smooth_duration,
                self.max_decay@.len() == old(self).max_decay@.len(),
                forall|level: i32| call_requires(decay, (level,)),
                forall|c: int|
                    0 <= c < idx ==> call_ensures(
                        decay,
                        (old(self).max_decay@[c],),
                        #[trigger] self.max_decay@[c],
                    ),
                forall|c: int|
                    idx <= c < self.max_decay@.len() ==> self.max_decay@[c] == old(
                        self,
                    ).max_decay@[c],
            decreases self.max_decay@.len() - idx,
        {
            let level: i32 = self.max_decay[idx];
            self.max_decay[idx] = decay(level);
            idx += 1;
        }
    }
}

impl ChannelAnalysis {
    /// What is asked of a channel before its levels are taken: that its counters can go on.
    pub open spec fn can_advance(&self, idx: int, frame_time: Duration) -> bool {
        let channel = self.connection.contents()[idx]@;
        let samples = crate::connection::buffer::samples_in_span(frame_time@, channel.sample_rate);
        &&& channel.back.len() + samples <= usize::MAX
        &&& channel.absolute_sample + channel.taken(samples).len() <= usize::MAX
    }

    /// The buffer of a channel once its levels were taken: the samples of the frame were taken,
    /// and those that were kept for long enough went.
    pub open spec fn advanced(&self, idx: int, frame_time: Duration) -> SampleBufferView<i32> {
        let channel = self.connection.contents()[idx]@;
        let rate = channel.sample_rate;
        channel.after_take(
            crate::connection::buffer::samples_in_span(frame_time@, rate),
        ).trimmed(crate::connection::buffer::samples_within(self.buffer_duration@, rate))
    }

    /// The levels of a channel: the peak of the samples of the frame, the peak of the last moments
    /// of what is kept, and the highest level since it decayed.
    pub open spec fn levels(&self, idx: int, frame_time: Duration) -> BarInfo {
        let channel = self.connection.contents()[idx]@;
        let rate = channel.sample_rate;
        let jagged = peak(
            channel.taken(crate::connection::buffer::samples_in_span(frame_time@, rate)),
        );
        let smooth = peak(
            crate::connection::buffer::newest(
                self.advanced(idx, frame_time).back,
                crate::connection::buffer::samples_in_span(self.smooth_duration@, rate),
            ),
        );
        BarInfo { jagged, smooth, decaying: larger(jagged, self.max_decay@[idx]) }
    }

    /// Takes the levels of one channel.
    pub fn channel_info(&mut self, idx: usize, frame_time: Duration) -> (info: BarInfo)
        requires
            old(self).wf(),
            idx < old(self).connection.contents().len(),
            old(self).can_advance(idx as int, frame_time),
        ensures
            info == old(self).levels(idx as int, frame_time),
            final(self).wf(),
            final(self).buffer_duration == old(self).buffer_duration,
            final(self).smooth_duration == old(self).smooth_duration,
            final(self).max_decay@ == old(self).max_decay@.update(idx as int, info.decaying),
            final(self).connection.number() == old(self).connection.number(),
            final(self).connection.title() == old(self).connection.title(),
            final(self).connection.contents().len() == old(self).connection.contents().len(),
            final(self).connection.contents()[idx as int]@ == old(self).advanced(
                idx as int,
                frame_time,
            ),
            forall|c: int|
                0 <= c < old(self).connection.contents().len() && c != idx
                    ==> #[trigger] final(self).connection.contents()[c]
                    == old(self).connection.contents()[c],
    {
        let channels = self.connection.buffers();
        let jagged_raw: i32 = peak_of(channels[idx].take_duration(frame_time));
        channels[idx].trim_backbuffer_duration(self.buffer_duration);
        let smooth_raw: i32 = {
            let iter = channels[idx].backbuffer();
            let len: usize = iter.len();
            let kept: usize = channels[idx].samples_for_duration(self.smooth_duration);
            let ghost back = iter@;
            let recent = iter.skip(len.saturating_sub(kept));
            assert(recent@ =~= crate::connection::buffer::newest(back, kept as nat));
            peak_of(recent)
        };
        let decaying_raw: i32 = if jagged_raw < self.max_decay[idx] {
            self.max_decay[idx]
        } else {
            jagged_raw
        };
        self.max_decay[idx] = decaying_raw;
        BarInfo { jagged: jagged_raw, smooth: smooth_raw, decaying: decaying_raw }
    }

    /// Takes the levels of all channels.
    pub fn with_bar_info(&mut self, frame_time: Duration) -> (infos: Vec<BarInfo>)
        requires
            old(self).wf(),
            forall|c: int|
                0 <= c < old(self).connection.contents().len() ==> #[trigger] old(
                    self,
                ).can_advance(c, frame_time),
        ensures
            infos@ == Seq::new(
                old(self).connection.contents().len(),
                |c: int| old(self).levels(c, frame_time),
            ),
            final(self).wf(),
            final(self).buffer_duration == old(self).buffer_duration,
            final(self).smooth_duration == old(self).smooth_duration,
            final(self).max_decay@ == Seq::new(infos@.len(), |c: int| infos@[c].decaying),
            final(self).connection.number() == old(self).connection.number(),
            final(self).connection.title() == old(self).connection.title(),
            final(self).connection.contents().len() == old(self).connection.contents().len(),
            forall|c: int|
                0 <= c < old(self).connection.contents().len()
                    ==> (#[trigger] final(self).connection.contents()[c])@
                    == old(self).advanced(c, frame_time),
    {
        let channels: usize = self.connection.channels();
        let mut infos: Vec<BarInfo> = Vec::with_capacity(channels);
        while infos.len() < channels
            invariant
                infos@.len() <= channels,
                channels == old(self).connection.contents().len(),
                self.wf(),
                self.buffer_duration == old(self).buffer_duration,
                self.smooth_duration == old(self).smooth_duration,
                self.connection.number() == old(self).connection.number(),
                self.connection.title() == old(self).connection.title(),
                self.connection.contents().len() == channels,
                self.max_decay@.len() == channels,
                forall|c: int| 0 <= c < channels ==> #[trigger] old(self).can_advance(c, frame_time),
                forall|c: int|
                    0 <= c < infos@.len() ==> {
                        &&& (#[trigger] infos@[c]) == old(self).levels(c, frame_time)
                        &&& self.max_decay@[c] == infos@[c].decaying
                    },
                forall|c: int|
                    0 <= c < infos@.len() ==> (#[trigger] self.connection.contents()[c])@ == old(
                        self,
                    ).advanced(c, frame_time),
                forall|c: int|
                    infos@.len() <= c < channels ==> {
                        &&& (#[trigger] self.connection.contents()[c]) == old(
                            self,
                        ).connection.contents()[c]
                        &&& self.max_decay@[c] == old(self).max_decay@[c]
                    },
            decreases channels - infos@.len(),
        {
            let ghost now = infos@.len() as int;
            assert(old(self).can_advance(now, frame_time));
            assert(self.connection.contents()[now] == old(self).connection.contents()[now]);
            let info = self.channel_info(infos.len(), frame_time);
            infos.push(info);
        }
        assert(infos@ =~= Seq::new(
            old(self).connection.contents().len(),
            |c: int| old(self).levels(c, frame_time),
        ));
        assert(self.max_decay@ =~= Seq::new(infos@.len(), |c: int| infos@[c].decaying));
        infos
    }
}

/// All connected devices, and the channel that is looked at closely, if there is one.
pub struct ChannelAnalysisSet {
    /// The devices
    pub devices: Vec<ChannelAnalysis>,
    /// The device and the channel looked at
    pub detail_view: Option<(usize, usize)>,
}

impl ChannelAnalysisSet {
    /// What every set keeps: its devices are in order.
    pub open spec fn wf(&self) -> bool {
        forall|d: int| 0 <= d < self.devices@.len() ==> (#[trigger] self.devices@[d]).wf()
    }

    /// Whether there is such a channel.
    pub open spec fn has_channel(&self, device: int, channel: int) -> bool {
        &&& 0 <= device < self.devices@.len()
        &&& 0 <= channel < self.devices@[device].connection.contents().len()
    }

    /// The channel looked at, if there is such a channel.
    pub open spec fn rectified(&self) -> Option<(usize, usize)> {
        match self.detail_view {
            Some((device, channel)) => if self.has_channel(device as int, channel as int) {
                Some((device, channel))
            } else {
                None
            },
            None => None,
        }
    }

    /// The analysis of connections that were just made. No channel is looked at.
    pub fn new(from: Vec<ManagedConnection<i32>>) -> (set: Self)
        requires
            forall|d: int| 0 <= d < from@.len() ==> (#[trigger] from@[d]).wf(),
        ensures
            set.wf(),
            set.detail_view is None,
            set.devices@.len() == from@.len(),
            forall|d: int|
                0 <= d < from@.len() ==> {
                    let device = #[trigger] set.devices@[d];
                    &&& device.connection == from@[d]
                    &&& device.buffer_duration@ == 3_000_000_000
                    &&& device.smooth_duration@ == 150_000_000
                    &&& device.max_decay@ == Seq::new(from@[d].contents().len(), |c: int| 0i32)
                },
    {
        let ghost all = from@;
        let mut devices: Vec<ChannelAnalysis> = Vec::new();
        for connection in it: from
            invariant
                it.seq() == all,
                devices@.len() == it.index(),
                forall|d: int| 0 <= d < all.len() ==> (#[trigger] all[d]).wf(),
                forall|d: int|
                    0 <= d < devices@.len() ==> {
                        let device = #[trigger] devices@[d];
                        &&& device.wf()
                        &&& device.connection == all[d]
                        &&& device.buffer_duration@ == 3_000_000_000
                        &&& device.smooth_duration@ == 150_000_000
                        &&& device.max_decay@ == Seq::new(all[d].contents().len(), |c: int| 0i32)
                    },
        {
            devices.push(ChannelAnalysis::new(connection));
        }
        ChannelAnalysisSet { devices, detail_view: None }
    }

    /// Looks at no channel any more if the one that was looked at is gone.
    pub fn rectify_selected(&mut self)
        ensures
            final(self).detail_view == old(self).rectified(),
            final(self).devices == old(self).devices,
            match old(self).detail_view {
                Some((device, channel)) => if device < old(self).devices@.len() && channel
                    < old(self).devices@[device as int].connection.contents().len() {
                    final(self).detail_view == Some((device, channel))
                } else {
                    final(self).detail_view is None
                },
                None => final(self).detail_view is None,
            },
    {
        if let Some((device, channel)) = self.detail_view {
            if device >= self.devices.len() {
                self.detail_view = None;
            } else if channel >= self.devices[device].connection.channels() {
                self.detail_view = None;
            }
        }
    }

    /// The buffer of the channel looked at.
    pub fn detail_channel_mut(&mut self) -> (buffer: Option<&mut SampleBuffer<i32>>)
        ensures
            final(self).detail_view == old(self).rectified(),
            final(self).devices@.len() == old(self).devices@.len(),
            match old(self).rectified() {
                Some((device, channel)) => {
                    let before = old(self).devices@[device as int];
                    let after = final(self).devices@[device as int];
                    &&& buffer matches Some(found)
                    &&& *found == before.connection.contents()[channel as int]
                    &&& after.connection.contents() == before.connection.contents().update(
                        channel as int,
                        *final(found),
                    )
                    &&& after.connection.number() == before.connection.number()
                    &&& after.connection.title() == before.connection.title()
                    &&& after.buffer_duration == before.buffer_duration
                    &&& after.smooth_duration == before.smooth_duration
                    &&& after.max_decay == before.max_decay
                    &&& forall|d: int|
                        0 <= d < old(self).devices@.len() && d != device
                            ==> #[trigger] final(self).devices@[d] == old(self).devices@[d]
                },
                None => buffer is None && final(self).devices == old(self).devices,
            },
    {
        self.rectify_selected();
        match self.detail_view {
            Some((device, channel)) => {
                Some(&mut self.devices[device].connection.buffers()[channel])
            },
            None => None,
        }
    }

    /// Whether a channel is looked at.
    pub fn showing_detail(&self) -> (showing: bool)
        ensures
            showing == (self.detail_view is Some),
    {
        self.detail_view.is_some()
    }

    /// Looks at a channel from now on.
    pub fn select(&mut self, device: usize, channel: usize)
        ensures
            final(self).detail_view == Some((device, channel)),
            final(self).devices == old(self).devices,
    {
        self.detail_view = Some((device, channel));
    }

    /// Whether this is the channel that is looked at.
    pub fn is_selected(&self, device: usize, channel: usize) -> (selected: bool)
        ensures
            selected == (self.detail_view == Some((device, channel))),
    {
        match self.detail_view {
            Some(it) => it.0 == device && it.1 == channel,
            None => false,
        }
    }
}

/// A peak is not below the magnitude of any sample, and is the magnitude of one of them, or zero
/// where there are none. It is never negative.
pub proof fn law_peak_is_the_largest_magnitude(samples: Seq<i32>)
    ensures
        peak(samples) >= 0,
        forall|i: int| 0 <= i < samples.len() ==> magnitude(#[trigger] samples[i]) <= peak(samples),
        peak(samples) == 0 || exists|i: int|
            0 <= i < samples.len() && magnitude(#[trigger] samples[i]) == peak(samples),
    decreases samples.len(),
{
    if samples.len() > 0 {
        let rest = samples.drop_last();
        law_peak_is_the_largest_magnitude(rest);
        assert forall|i: int| 0 <= i < samples.len() implies magnitude(#[trigger] samples[i])
            <= peak(samples) by {
            if i < rest.len() {
                assert(rest[i] == samples[i]);
            }
        }
        if peak(samples) != magnitude(samples.last()) && peak(rest) != 0 {
            let i = choose|i: int|
                0 <= i < rest.len() && magnitude(#[trigger] rest[i]) == peak(rest);
            assert(samples[i] == rest[i]);
        }
    }
}

/// The peak of some samples is not above the peak of samples that end with them.
proof fn lemma_peak_of_end(samples: Seq<i32>, end: Seq<i32>)
    requires
        end.len() <= samples.len(),
        end == samples.skip(samples.len() - end.len()),
    ensures
        peak(end) <= peak(samples),
{
    law_peak_is_the_largest_magnitude(samples);
    law_peak_is_the_largest_magnitude(end);
    if peak(end) != 0 {
        let i = choose|i: int| 0 <= i < end.len() && magnitude(#[trigger] end[i]) == peak(end);
        assert(end[i] == samples[samples.len() - end.len() + i]);
    }
}

/// The levels of a channel: none is negative, and the decaying one is neither below the newest one
/// nor below what it was. Where a frame is no longer than the last moments, the newest level is not
/// above the smooth one, as long as the samples of the frame are kept.
pub proof fn law_levels_are_in_order(analysis: ChannelAnalysis, idx: int, frame_time: Duration)
    requires
        analysis.wf(),
        0 <= idx < analysis.connection.contents().len(),
    ensures
        ({
            let levels = analysis.levels(idx, frame_time);
            let channel = analysis.connection.contents()[idx]@;
            let rate = channel.sample_rate;
            let frame = channel.taken(
                crate::connection::buffer::samples_in_span(frame_time@, rate),
            );
            &&& 0 <= levels.jagged <= levels.decaying <= i32::MAX
            &&& 0 <= levels.smooth <= i32::MAX
            &&& analysis.max_decay@[idx] <= levels.decaying
            &&& levels.decaying == levels.jagged || levels.decaying == analysis.max_decay@[idx]
            &&& frame_time@ <= analysis.smooth_duration@ && frame.len()
                <= crate::connection::buffer::samples_within(analysis.buffer_duration@, rate)
                ==> levels.jagged <= levels.smooth
        }),
{
    let channel = analysis.connection.contents()[idx]@;
    let rate = channel.sample_rate;
    let frame = channel.taken(crate::connection::buffer::samples_in_span(frame_time@, rate));
    let kept = analysis.advanced(idx, frame_time).back;
    let recent = crate::connection::buffer::newest(
        kept,
        crate::connection::buffer::samples_in_span(analysis.smooth_duration@, rate),
    );
    law_peak_is_the_largest_magnitude(frame);
    law_peak_is_the_largest_magnitude(recent);
    if frame_time@ <= analysis.smooth_duration@ && frame.len()
        <= crate::connection::buffer::samples_within(analysis.buffer_duration@, rate) {
        crate::connection::buffer::law_longer_spans_have_no_fewer_samples(
            frame_time@,
            analysis.smooth_duration@,
            rate,
        );
        assert(frame =~= kept.skip(kept.len() - frame.len()));
        assert(frame =~= recent.skip(recent.len() - frame.len()));
        lemma_peak_of_end(recent, frame);
    }
}

/// No more samples of a channel are kept than the time to keep them allows: they cover no more than
/// that time, and are no more than that time is counted as, as long as they are less than a third
/// of `2^53`.
pub proof fn law_kept_samples_are_bounded(
    analysis: ChannelAnalysis,
    idx: int,
    frame_time: Duration,
)
    requires
        analysis.wf(),
        0 <= idx < analysis.connection.contents().len(),
    ensures
        ({
            let rate = analysis.connection.contents()[idx]@.sample_rate;
            let kept = analysis.advanced(idx, frame_time).back.len();
            &&& kept <= crate::connection::buffer::samples_within(analysis.buffer_duration@, rate)
            &&& 3 * kept < crate::double::MANTISSA_LIMIT && kept <= usize::MAX ==> kept
                <= crate::connection::buffer::samples_in_span(analysis.buffer_duration@, rate)
        }),
{
    let rate = analysis.connection.contents()[idx]@.sample_rate;
    let kept = analysis.advanced(idx, frame_time).back.len();
    if 3 * kept < crate::double::MANTISSA_LIMIT && kept <= usize::MAX {
        crate::connection::buffer::law_kept_samples_are_counted(
            kept,
            analysis.buffer_duration@,
            rate,
        );
    }
}

/// The magnitude of a sample is its distance from zero; that of the lowest one, which cannot be held,
/// is the largest number there is.
pub proof fn law_magnitude_is_the_distance_from_zero(sample: i32)
    ensures
        sample >= 0 ==> magnitude(sample) == sample,
        i32::MIN < sample < 0 ==> magnitude(sample) == -sample,
        sample == i32::MIN ==> magnitude(sample) == i32::MAX,
{
}

/// Whether no sample goes beyond `level` in either direction, and one of them reaches it unless it
/// is zero. The lowest sample of all counts as one step less.
pub open spec fn is_level_of(level: i32, samples: Seq<i32>) -> bool {
    &&& level >= 0
    &&& forall|i: int|
        0 <= i < samples.len() ==> #[trigger] samples[i] <= level && (samples[i] >= -level || (
        samples[i] == i32::MIN && level == i32::MAX))
    &&& level == 0 || exists|i: int|
        {
            &&& 0 <= i < samples.len()
            &&& #[trigger] samples[i] == level || samples[i] == -level || (samples[i] == i32::MIN
                && level == i32::MAX)
        }
}

/// The peak of some samples is the level that they reach, and no other.
pub proof fn law_peak_is_the_level(samples: Seq<i32>, level: i32)
    ensures
        is_level_of(peak(samples), samples),
        is_level_of(level, samples) ==> level == peak(samples),
{
    law_peak_is_the_largest_magnitude(samples);
    if peak(samples) != 0 {
        let i = choose|i: int|
            0 <= i < samples.len() && magnitude(#[trigger] samples[i]) == peak(samples);
        assert(samples[i] <= peak(samples));
    }
    if is_level_of(level, samples) && level != 0 {
        let i = choose|i: int|
            {
                &&& 0 <= i < samples.len()
                &&& #[trigger] samples[i] == level || samples[i] == -level || (samples[i]
                    == i32::MIN && level == i32::MAX)
            };
        assert(magnitude(samples[i]) == level);
    }
}

/// The newest level of a channel is that of all samples that are taken in the frame: the next ones
/// that wait, as many as the frame is counted as, or all where there are fewer.
pub proof fn law_newest_level_is_that_of_the_frame(
    analysis: ChannelAnalysis,
    idx: int,
    frame_time: Duration,
    count: int,
)
    requires
        0 <= idx < analysis.connection.contents().len(),
        ({
            let channel = analysis.connection.contents()[idx]@;
            let asked = crate::connection::buffer::samples_in_span(
                frame_time@,
                channel.sample_rate,
            );
            &&& 0 <= count <= channel.pending.len()
            &&& count == asked || (count < asked && count == channel.pending.len())
        }),
    ensures
        ({
            let pending = analysis.connection.contents()[idx]@.pending;
            let level = analysis.levels(idx, frame_time).jagged;
            &&& is_level_of(level, pending.take(count))
            &&& forall|i: int| 0 <= i < count ==> magnitude(#[trigger] pending[i]) <= level
            &&& level == 0 || exists|i: int|
                0 <= i < count && magnitude(#[trigger] pending[i]) == level
        }),
{
    let channel = analysis.connection.contents()[idx]@;
    let frame = channel.pending.take(count);
    let level = analysis.levels(idx, frame_time).jagged;
    assert(channel.taken(
        crate::connection::buffer::samples_in_span(frame_time@, channel.sample_rate),
    ) =~= frame);
    law_peak_is_the_level(frame, level);
    law_peak_is_the_largest_magnitude(frame);
    assert forall|i: int| 0 <= i < count implies magnitude(#[trigger] channel.pending[i])
        <= level by {
        assert(frame[i] == channel.pending[i]);
    }
    if level != 0 {
        let i = choose|i: int| 0 <= i < frame.len() && magnitude(#[trigger] frame[i]) == level;
        assert(channel.pending[i] == frame[i]);
    }
}

/// The smooth level of a channel is that of the last of the samples that are kept, as many as the
/// last moments are counted as, or all where there are fewer. The decaying level is the larger one
/// of what it was and of the newest level.
pub proof fn law_smooth_level_is_that_of_the_last_moments(
    analysis: ChannelAnalysis,
    idx: int,
    frame_time: Duration,
    count: int,
)
    requires
        0 <= idx < analysis.connection.contents().len(),
        ({
            let kept = analysis.advanced(idx, frame_time).back;
            let asked = crate::connection::buffer::samples_in_span(
                analysis.smooth_duration@,
                analysis.connection.contents()[idx]@.sample_rate,
            );
            &&& 0 <= count <= kept.len()
            &&& count == asked || (count < asked && count == kept.len())
        }),
    ensures
        ({
            let kept = analysis.advanced(idx, frame_time).back;
            let levels = analysis.levels(idx, frame_time);
            let before = analysis.max_decay@[idx];
            &&& is_level_of(levels.smooth, kept.skip(kept.len() - count))
            &&& before >= levels.jagged ==> levels.decaying == before
            &&& before <= levels.jagged ==> levels.decaying == levels.jagged
        }),
{
    let kept = analysis.advanced(idx, frame_time).back;
    let levels = analysis.levels(idx, frame_time);
    let recent = kept.skip(kept.len() - count);
    assert(crate::connection::buffer::newest(
        kept,
        crate::connection::buffer::samples_in_span(
            analysis.smooth_duration@,
            analysis.connection.contents()[idx]@.sample_rate,
        ),
    ) =~= recent);
    law_peak_is_the_level(recent, levels.smooth);
}

/// Once the levels of a channel were taken, the samples of the frame have gone from those that wait
/// to those that are kept. Of these, the newest are left: no more than fit into the time to keep
/// them, and no fewer than have to be.
pub proof fn law_frame_goes_to_the_kept_samples(
    analysis: ChannelAnalysis,
    idx: int,
    frame_time: Duration,
    count: int,
)
    requires
        0 <= idx < analysis.connection.contents().len(),
        ({
            let channel = analysis.connection.contents()[idx]@;
            let asked = crate::connection::buffer::samples_in_span(
                frame_time@,
                channel.sample_rate,
            );
            &&& 0 <= count <= channel.pending.len()
            &&& count == asked || (count < asked && count == channel.pending.len())
        }),
    ensures
        ({
            let channel = analysis.connection.contents()[idx]@;
            let after = analysis.advanced(idx, frame_time);
            let all = channel.back + channel.pending.take(count);
            let room = analysis.buffer_duration@ * channel.sample_rate;
            let second = crate::time::NANOS_PER_SEC;
            &&& after.pending == channel.pending.skip(count)
            &&& after.absolute_sample == channel.absolute_sample + count
            &&& after.sample_rate == channel.sample_rate
            &&& after.back.len() <= all.len()
            &&& after.back == all.skip(all.len() - after.back.len())
            &&& after.back.len() * second <= room
            &&& after.back.len() < all.len() ==> (after.back.len() + 1) * second > room
        }),
{
    let channel = analysis.connection.contents()[idx]@;
    let asked = crate::connection::buffer::samples_in_span(frame_time@, channel.sample_rate);
    let taken = channel.after_take(asked);
    let all = channel.back + channel.pending.take(count);
    assert(channel.taken(asked) =~= channel.pending.take(count));
    assert(taken.back =~= all);
    crate::connection::buffer::law_trim_drops_no_more_than_it_has_to(
        taken,
        analysis.buffer_duration@,
        0,
    );
}

/// The levels of a channel can be taken whenever its counters can go on.
pub proof fn law_levels_can_be_taken(analysis: ChannelAnalysis, idx: int, frame_time: Duration)
    requires
        0 <= idx < analysis.connection.contents().len(),
        ({
            let channel = analysis.connection.contents()[idx]@;
            &&& channel.back.len() + crate::connection::buffer::samples_in_span(
                frame_time@,
                channel.sample_rate,
            ) <= usize::MAX
            &&& channel.absolute_sample + channel.pending.len() <= usize::MAX
        }),
    ensures
        analysis.can_advance(idx, frame_time),
{
}

/// A channel that is looked at stays looked at exactly if its device is there and has that channel;
/// where none is looked at, none is found.
pub proof fn law_existing_channel_stays_selected(
    set: ChannelAnalysisSet,
    device: usize,
    channel: usize,
)
    ensures
        set.detail_view == Some((device, channel)) && device < set.devices@.len() && channel
            < set.devices@[device as int].connection.contents().len() ==> set.rectified() == Some(
            (device, channel),
        ),
        set.detail_view == Some((device, channel)) && (device >= set.devices@.len() || channel
            >= set.devices@[device as int].connection.contents().len()) ==> set.rectified() is None,
        set.detail_view is None ==> set.rectified() is None,
        set.has_channel(device as int, channel as int) == (device < set.devices@.len() && channel
            < set.devices@[device as int].connection.contents().len()),
{
}

} // verus!
