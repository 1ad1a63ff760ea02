//! The samples of one channel, kept for a while after they have been read.

use std::collections::VecDeque;

use vstd::prelude::*;

use crate::connection::SampleRate;
use crate::hz::{Hz, HzExt};
use crate::time::{Duration, NANOS_PER_SEC};

verus! {

/// What a [`SampleBuffer`] holds.
#[verifier::ext_equal]
pub struct SampleBufferView<S> {
    /// The samples that were taken and are still kept, oldest first.
    pub back: Seq<S>,
    /// The samples that were not taken yet, oldest first.
    pub pending: Seq<S>,
    /// How many samples there are in a second.
    pub sample_rate: u32,
    /// How many samples were ever taken.
    pub absolute_sample: nat,
}

/// How many samples make up `span` nanoseconds: the seconds times the rate, rounded up. The
/// multiplication is in double precision.
pub open spec fn samples_in_span(span: nat, sample_rate: u32) -> nat {
    let exact = crate::double::ceiling_of_product(
        span / NANOS_PER_SEC as nat,
        span % NANOS_PER_SEC as nat,
        sample_rate as nat,
    );
    if exact <= usize::MAX {
        exact
    } else {
        usize::MAX as nat
    }
}

/// How many samples fit into `span` nanoseconds: the seconds times the rate, rounded down.
pub open spec fn samples_within(span: nat, sample_rate: u32) -> nat {
    span * sample_rate as nat / NANOS_PER_SEC as nat
}

impl<S> SampleBufferView<S> {
    /// The buffer once more samples have come in.
    pub open spec fn ingested(self, samples: Seq<S>) -> Self {
        SampleBufferView { pending: self.pending + samples, ..self }
    }

    /// Whether `after` is the buffer once a clone of each of `samples` has come in.
    pub open spec fn ingests(self, samples: Seq<S>, after: Self) -> bool where S: Clone {
        exists|copies: Seq<S>|
            {
                &&& copies.len() == samples.len()
                &&& forall|i: int|
                    0 <= i < copies.len() ==> cloned(samples[i], #[trigger] copies[i])
                &&& after == #[trigger] self.ingested(copies)
            }
    }

    /// Where nothing comes in, nothing changes.
    pub proof fn lemma_ingests_none(self) where S: Clone
        ensures
            self.ingests(Seq::empty(), self),
    {
        assert(self.pending + Seq::<S>::empty() =~= self.pending);
        assert(self == self.ingested(Seq::empty()));
    }

    /// Samples that come in one after the other come in together.
    pub proof fn lemma_ingests_more(
        self,
        first: Seq<S>,
        between: Self,
        second: Seq<S>,
        after: Self,
    ) where S: Clone
        requires
            self.ingests(first, between),
            between.ingests(second, after),
        ensures
            self.ingests(first + second, after),
    {
        let a = choose|copies: Seq<S>|
            {
                &&& copies.len() == first.len()
                &&& forall|i: int|
                    0 <= i < copies.len() ==> cloned(first[i], #[trigger] copies[i])
                &&& between == #[trigger] self.ingested(copies)
            };
        let b = choose|copies: Seq<S>|
            {
                &&& copies.len() == second.len()
                &&& forall|i: int|
                    0 <= i < copies.len() ==> cloned(second[i], #[trigger] copies[i])
                &&& after == #[trigger] between.ingested(copies)
            };
        assert(self.pending + a + b =~= self.pending + (a + b));
        assert(after == self.ingested(a + b));
    }

    /// The samples that come out when `samples` are asked for: as many as there are, at most.
    pub open spec fn taken(self, samples: nat) -> Seq<S> {
        if samples <= self.pending.len() {
            self.pending.take(samples as int)
        } else {
            self.pending
        }
    }

    /// The buffer once `samples` were asked for.
    pub open spec fn after_take(self, samples: nat) -> Self {
        SampleBufferView {
            back: self.back + self.taken(samples),
            pending: self.pending.skip(self.taken(samples).len() as int),
            absolute_sample: self.absolute_sample + self.taken(samples).len(),
            ..self
        }
    }

    /// The buffer once no more than the `samples` newest of the samples taken are kept.
    pub open spec fn trimmed(self, samples: nat) -> Self {
        SampleBufferView { back: newest(self.back, samples), ..self }
    }
}

/// The last `count` items, or all where there are no more than that.
pub open spec fn newest<S>(items: Seq<S>, count: nat) -> Seq<S> {
    if count >= items.len() {
        items
    } else {
        items.skip(items.len() - count)
    }
}

/// The samples of one channel. Samples come in at the end, are taken in order, and after that
/// stay in the backbuffer until it is trimmed.
pub struct SampleBuffer<Sample> {
    delegate: VecDeque<Sample>,
    sample_rate: u32,
    /// How many samples at the start of `delegate` are for the backbuffer
    backbuffer: usize,
    /// The index, within the stream, of the first sample that is not in the backbuffer
    absolute_sample: usize,
}

impl<S> View for SampleBuffer<S> {
    type V = SampleBufferView<S>;

    closed spec fn view(&self) -> SampleBufferView<S> {
        SampleBufferView {
            back: self.delegate@.take(self.backbuffer as int),
            pending: self.delegate@.skip(self.backbuffer as int),
            sample_rate: self.sample_rate,
            absolute_sample: self.absolute_sample as nat,
        }
    }
}

impl<S> SampleBuffer<S> {
    /// What every buffer keeps: the backbuffer is a part of what is stored.
    pub closed spec fn wf(&self) -> bool {
        self.backbuffer <= self.delegate@.len()
    }

    /// An empty buffer.
    pub fn new(sample_rate: SampleRate) -> (buffer: Self)
        ensures
            buffer.wf(),
            buffer@ == (SampleBufferView::<S> {
                back: Seq::empty(),
                pending: Seq::empty(),
                sample_rate: sample_rate.0,
                absolute_sample: 0,
            }),
    {
        let buffer = SampleBuffer {
            delegate: VecDeque::new(),
            sample_rate: sample_rate.0,
            backbuffer: 0,
            absolute_sample: 0,
        };
        assert(buffer@.back =~= Seq::empty());
        assert(buffer@.pending =~= Seq::empty());
        buffer
    }

    /// How many samples there are in a second, as a frequency.
    pub fn sample_rate(&self) -> (rate: Hz)
        ensures
            rate@ == self@.sample_rate as isize,
    {
        self.sample_rate.hz()
    }

    /// The length of the backbuffer, in samples.
    pub fn backbuffer_len(&self) -> (count: usize)
        requires
            self.wf(),
        ensures
            count == self@.back.len(),
    {
        self.backbuffer
    }

    /// How many samples wait to be taken.
    pub fn buffer_len(&self) -> (count: usize)
        requires
            self.wf(),
        ensures
            count == self@.pending.len(),
    {
        self.delegate.len() - self.backbuffer
    }

    /// The index, within the stream, of the first sample that was not taken yet.
    pub fn absolute_sample(&self) -> (index: usize)
        ensures
            index == self@.absolute_sample,
    {
        self.absolute_sample
    }

    /// The length of the backbuffer in time.
    pub fn backbuffer_duration(&self) -> (span: Duration)
        requires
            self.wf(),
            self@.sample_rate > 0,
            self@.back.len() <= u32::MAX,
        ensures
            span@ == self@.back.len() * NANOS_PER_SEC as nat / self@.sample_rate as nat,
    {
        self.duration_for_samples(self.backbuffer_len() as u32)
    }

    /// How much time the samples that wait to be taken cover.
    pub fn buffer_duration(&self) -> (span: Duration)
        requires
            self.wf(),
            self@.sample_rate > 0,
            self@.pending.len() <= u32::MAX,
        ensures
            span@ == self@.pending.len() * NANOS_PER_SEC as nat / self@.sample_rate as nat,
    {
        self.duration_for_samples(self.buffer_len() as u32)
    }

    /// Appends a clone of each of `samples`.
    pub fn ingest(&mut self, samples: &[S]) where S: Clone
        requires
            old(self).wf(),
        ensures
            final(self).wf(),
            old(self)@.ingests(samples@, final(self)@),
    {
        let ghost before = self@;
        let ghost mut copies: Seq<S> = Seq::empty();
        assert(before.pending + copies =~= before.pending);
        let mut idx: usize = 0;
        while idx < samples.len()
            invariant
                0 <= idx <= samples@.len(),
                self.wf(),
                copies.len() == idx,
                forall|i: int| 0 <= i < copies.len() ==> cloned(samples@[i], #[trigger] copies[i]),
                self@ == before.ingested(copies),
            decreases samples@.len() - idx,
        {
            let copy = samples[idx].clone();
            let ghost item = copy;
            let ghost current = self@;
            self.delegate.push_back(copy);
            proof {
                assert(self@.back =~= current.back);
                assert(self@.pending =~= current.pending.push(item));
                assert(self@.pending =~= before.pending + copies.push(item));
                copies = copies.push(item);
            }
            idx += 1;
        }
    }

    /// How many samples make up `duration`.
    pub fn samples_for_duration(&self, duration: Duration) -> (count: usize)
        ensures
            count == samples_in_span(duration@, self@.sample_rate),
    {
        let exact: u128 = crate::double::product_ceiling(
            duration.as_secs(),
            duration.subsec_nanos(),
            self.sample_rate,
        );
        if exact <= usize::MAX as u128 {
            exact as usize
        } else {
            usize::MAX
        }
    }

    /// How much time `samples` samples cover, in whole nanoseconds.
    pub fn duration_for_samples(&self, samples: u32) -> (span: Duration)
        requires
            self@.sample_rate > 0,
        ensures
            span@ == samples as nat * NANOS_PER_SEC as nat / self@.sample_rate as nat,
    {
        let nanos: u64 = samples as u64 * NANOS_PER_SEC as u64;
        Duration::from_nanos(nanos / self.sample_rate as u64)
    }

    /// Takes the next `samples` samples, or as many as there are. They go to the backbuffer.
    pub fn take(&mut self, samples: usize) -> (taken: SampleIter<'_, S>)
        requires
            old(self).wf(),
            old(self)@.back.len() + samples <= usize::MAX,
            old(self)@.absolute_sample + old(self)@.taken(samples as nat).len() <= usize::MAX,
        ensures
            taken@ == old(self)@.taken(samples as nat),
            final(self).wf(),
            final(self)@ == old(self)@.after_take(samples as nat),
    {
        let ghost before = self@;
        let start_idx: usize = self.backbuffer;
        let wanted: usize = self.backbuffer + samples;
        let end_idx: usize = if self.delegate.len() < wanted {
            self.delegate.len()
        } else {
            wanted
        };
        let taken_len: usize = end_idx - start_idx;
        assert(before.taken(samples as nat) =~= self.delegate@.subrange(
            start_idx as int,
            end_idx as int,
        ));
        self.absolute_sample += taken_len;
        self.backbuffer += taken_len;
        assert(self@.back =~= before.after_take(samples as nat).back);
        assert(self@.pending =~= before.after_take(samples as nat).pending);
        SampleIter { delegate: &self.delegate, start: start_idx, end: end_idx }
    }

    /// Takes the samples of the next `duration`, or as many as there are.
    pub fn take_duration(&mut self, duration: Duration) -> (taken: SampleIter<'_, S>)
        requires
            old(self).wf(),
            old(self)@.back.len() + samples_in_span(duration@, old(self)@.sample_rate)
                <= usize::MAX,
            old(self)@.absolute_sample + old(self)@.taken(
                samples_in_span(duration@, old(self)@.sample_rate),
            ).len() <= usize::MAX,
        ensures
            taken@ == old(self)@.taken(samples_in_span(duration@, old(self)@.sample_rate)),
            final(self).wf(),
            final(self)@ == old(self)@.after_take(
                samples_in_span(duration@, old(self)@.sample_rate),
            ),
    {
        let samples: usize = self.samples_for_duration(duration);
        self.take(samples)
    }

    /// Trims the backbuffer to at most `samples` samples: the oldest ones go.
    pub fn trim_backbuffer(&mut self, samples: usize)
        requires
            old(self).wf(),
        ensures
            final(self).wf(),
            final(self)@ == old(self)@.trimmed(samples as nat),
    {
        let ghost before = self@;
        let ghost stored = self.delegate@;
        let samples_to_trim: usize = self.backbuffer.saturating_sub(samples);
        let mut trimmed: usize = 0;
        assert(stored.skip(0) =~= stored);
        while trimmed < samples_to_trim
            invariant
                trimmed <= samples_to_trim <= stored.len(),
                self.delegate@ == stored.skip(trimmed as int),
                self.backbuffer == old(self).backbuffer,
                self.sample_rate == old(self).sample_rate,
                self.absolute_sample == old(self).absolute_sample,
            decreases samples_to_trim - trimmed,
        {
            let dropped = self.delegate.pop_front();
            assert(self.delegate@ =~= stored.skip(trimmed + 1));
            trimmed += 1;
        }
        self.backbuffer -= samples_to_trim;
        assert(self@.back =~= newest(before.back, samples as nat));
        assert(self@.pending =~= before.pending);
    }

    /// Trims the backbuffer to at most `duration` in length: the oldest samples go.
    pub fn trim_backbuffer_duration(&mut self, duration: Duration)
        requires
            old(self).wf(),
        ensures
            final(self).wf(),
            final(self)@ == old(self)@.trimmed(
                samples_within(duration@, old(self)@.sample_rate),
            ),
            old(self)@.sample_rate > 0 ==> final(self)@.back.len() * NANOS_PER_SEC as nat
                / old(self)@.sample_rate as nat <= duration@,
            final(self)@.back.len() < old(self)@.back.len() ==> (final(self)@.back.len() + 1)
                * NANOS_PER_SEC > duration@ * old(self)@.sample_rate,
            final(self)@.back == old(self)@.back.skip(
                old(self)@.back.len() - final(self)@.back.len(),
            ),
            final(self)@.pending == old(self)@.pending,
            final(self)@.absolute_sample == old(self)@.absolute_sample,
            final(self)@.sample_rate == old(self)@.sample_rate,
    {
        let secs: u64 = duration.as_secs();
        let nanos: u32 = duration.subsec_nanos();
        proof {
            vstd::arithmetic::div_mod::lemma_fundamental_div_mod(
                duration@ as int,
                NANOS_PER_SEC as int,
            );
        }
        assert(secs * NANOS_PER_SEC <= 0xffff_ffff_ffff_ffff * 1_000_000_000) by (nonlinear_arith)
            requires
                secs <= 0xffff_ffff_ffff_ffff,
                NANOS_PER_SEC == 1_000_000_000,
        ;
        let span: u128 = secs as u128 * NANOS_PER_SEC as u128 + nanos as u128;
        assert(span * self.sample_rate <= 0x4000_0000_0000_0000_0000_0000 * 0xffff_ffff)
            by (nonlinear_arith)
            requires
                span <= 0x4000_0000_0000_0000_0000_0000,
                self.sample_rate <= 0xffff_ffff,
        ;
        let samples: u128 = span * self.sample_rate as u128 / NANOS_PER_SEC as u128;
        proof {
            law_trim_keeps_the_newest(self@, samples as nat, samples as nat);
            lemma_fits_within(
                self@.trimmed(samples as nat).back.len(),
                duration@,
                self.sample_rate,
            );
            law_trim_drops_no_more_than_it_has_to(self@, duration@, 0);
        }
        if samples <= usize::MAX as u128 {
            self.trim_backbuffer(samples as usize)
        }
    }

    /// The samples that were taken and are still kept.
    pub fn backbuffer(&self) -> (samples: SampleIter<'_, S>)
        requires
            self.wf(),
        ensures
            samples@ == self@.back,
    {
        SampleIter { delegate: &self.delegate, start: 0, end: self.backbuffer }
    }
}

/// A run of the samples of a [`SampleBuffer`].
pub struct SampleIter<'b, S> {
    delegate: &'b VecDeque<S>,
    start: usize,
    end: usize,
}

impl<'b, S> View for SampleIter<'b, S> {
    type V = Seq<S>;

    /// The samples still to be visited, in order.
    closed spec fn view(&self) -> Seq<S> {
        self.delegate@.subrange(self.start as int, self.end as int)
    }
}

impl<'b, S> SampleIter<'b, S> {
    #[verifier::type_invariant]
    spec fn within(self) -> bool {
        self.start <= self.end <= self.delegate@.len()
    }

    /// How many samples are left.
    pub fn len(&self) -> (count: usize)
        ensures
            count == self@.len(),
    {
        proof {
            use_type_invariant(self);
        }
        self.end - self.start
    }

    /// Takes the next sample, if there is one left.
    pub fn next(&mut self) -> (item: Option<&'b S>)
        ensures
            old(self)@.len() == 0 ==> item is None && final(self)@ == old(self)@,
            old(self)@.len() > 0 ==> {
                &&& item == Some(&old(self)@[0])
                &&& final(self)@ == old(self)@.drop_first()
            },
    {
        proof {
            use_type_invariant(&*self);
        }
        if self.start < self.end {
            let delegate: &'b VecDeque<S> = self.delegate;
            let idx: usize = self.start;
            self.start = idx + 1;
            assert(self@ =~= old(self)@.drop_first());
            Some(&delegate[idx])
        } else {
            None
        }
    }

    /// Leaves out the next `count` samples, or all where there are no more than that.
    pub fn skip(self, count: usize) -> (rest: Self)
        ensures
            count >= self@.len() ==> rest@ == Seq::<S>::empty(),
            count < self@.len() ==> rest@ == self@.skip(count as int),
    {
        proof {
            use_type_invariant(&self);
        }
        let start: usize = if count < self.end - self.start {
            self.start + count
        } else {
            self.end
        };
        let rest = SampleIter { delegate: self.delegate, start, end: self.end };
        assert(count < self@.len() ==> rest@ =~= self@.skip(count as int));
        rest
    }
}

/// Taking samples moves them to the backbuffer: none is lost or changed, and their order stays.
/// What was taken is counted.
pub proof fn law_take_keeps_samples<S>(buffer: SampleBufferView<S>, samples: nat)
    ensures
        buffer.after_take(samples).back + buffer.after_take(samples).pending == buffer.back
            + buffer.pending,
        buffer.after_take(samples).back == buffer.back + buffer.taken(samples),
        buffer.taken(samples).len() <= samples,
        buffer.after_take(samples).absolute_sample == buffer.absolute_sample + buffer.taken(
            samples,
        ).len(),
{
    assert(buffer.after_take(samples).back + buffer.after_take(samples).pending =~= buffer.back
        + buffer.pending);
}

/// Taking samples twice gives what taking all of them at once gives, and leaves the same buffer:
/// no sample comes twice, and none is left out.
pub proof fn law_takes_compose<S>(buffer: SampleBufferView<S>, first: nat, second: nat)
    ensures
        buffer.taken(first) + buffer.after_take(first).taken(second) == buffer.taken(
            first + second,
        ),
        buffer.after_take(first).after_take(second) == buffer.after_take(first + second),
        buffer.after_take(first).after_take(second).back == buffer.back + buffer.taken(
            first + second,
        ),
        buffer.after_take(first).after_take(second).pending.len() + buffer.taken(
            first + second,
        ).len() == buffer.pending.len(),
{
    assert(buffer.taken(first) + buffer.after_take(first).taken(second) =~= buffer.taken(
        first + second,
    ));
    assert(buffer.after_take(first).after_take(second) =~= buffer.after_take(first + second));
}

/// Samples come out in the order in which they came in: once those that were waiting before are
/// taken, the next ones are the new ones.
pub proof fn law_samples_come_out_in_order<S>(buffer: SampleBufferView<S>, samples: Seq<S>)
    ensures
        buffer.ingested(samples).after_take(buffer.pending.len()).taken(samples.len()) == samples,
        buffer.ingested(samples).after_take(buffer.pending.len() + samples.len()).pending
            == Seq::<S>::empty(),
        buffer.ingested(samples).after_take(buffer.pending.len() + samples.len()).back
            == buffer.back + buffer.pending + samples,
{
    let waiting = buffer.pending.len();
    let fed = buffer.ingested(samples);
    assert(fed.taken(waiting) =~= buffer.pending);
    assert(fed.after_take(waiting).pending =~= samples);
    assert(fed.after_take(waiting).taken(samples.len()) =~= samples);
    assert(fed.taken(waiting + samples.len()) =~= buffer.pending + samples);
    assert(fed.after_take(waiting + samples.len()).pending =~= Seq::<S>::empty());
    assert(fed.after_take(waiting + samples.len()).back =~= buffer.back + buffer.pending
        + samples);
}

/// A trimmed backbuffer has at most the length it was trimmed to, holds the newest of its samples,
/// and loses nothing when it is trimmed to no less again. Samples that wait to be taken are not
/// touched.
pub proof fn law_trim_keeps_the_newest<S>(buffer: SampleBufferView<S>, samples: nat, more: nat)
    ensures
        buffer.trimmed(samples).back.len() <= samples,
        buffer.trimmed(samples).back == buffer.back.skip(
            buffer.back.len() - buffer.trimmed(samples).back.len(),
        ),
        buffer.back.len() <= samples ==> buffer.trimmed(samples) == buffer,
        buffer.back.len() >= samples ==> buffer.trimmed(samples).back.len() == samples,
        buffer.trimmed(samples).sample_rate == buffer.sample_rate,
        buffer.trimmed(samples).pending == buffer.pending,
        buffer.trimmed(samples).absolute_sample == buffer.absolute_sample,
        samples <= more ==> buffer.trimmed(samples).trimmed(more) == buffer.trimmed(samples),
        samples <= more ==> buffer.trimmed(more).trimmed(samples) == buffer.trimmed(samples),
{
    assert(buffer.trimmed(samples).back =~= buffer.back.skip(
        buffer.back.len() - buffer.trimmed(samples).back.len(),
    ));
    if samples <= more {
        assert(buffer.trimmed(more).trimmed(samples).back =~= buffer.trimmed(samples).back);
    }
}

/// A span of whole seconds is made of as many samples as come in that time, as long as this number
/// has no more than 53 bits.
pub proof fn law_whole_seconds_are_exact(secs: nat, sample_rate: u32)
    requires
        secs < crate::double::MANTISSA_LIMIT,
        secs * sample_rate < crate::double::MANTISSA_LIMIT,
        secs * sample_rate <= usize::MAX,
    ensures
        samples_in_span(secs * NANOS_PER_SEC as nat, sample_rate) == secs * sample_rate,
{
    let span = secs * NANOS_PER_SEC as nat;
    assert(span / NANOS_PER_SEC as nat == secs && span % NANOS_PER_SEC as nat == 0) by {
        vstd::arithmetic::div_mod::lemma_fundamental_div_mod_converse(
            span as int,
            NANOS_PER_SEC as int,
            secs as int,
            0,
        );
    }
    crate::double::lemma_whole_product(secs, sample_rate as nat);
}

/// A longer span is never made of fewer samples.
pub proof fn law_longer_spans_have_no_fewer_samples(span: nat, longer: nat, sample_rate: u32)
    requires
        span <= longer,
    ensures
        samples_in_span(span, sample_rate) <= samples_in_span(longer, sample_rate),
{
    let second = NANOS_PER_SEC as nat;
    vstd::arithmetic::div_mod::lemma_div_is_ordered(span as int, longer as int, second as int);
    vstd::arithmetic::div_mod::lemma_fundamental_div_mod(span as int, second as int);
    vstd::arithmetic::div_mod::lemma_fundamental_div_mod(longer as int, second as int);
    crate::double::order::lemma_product_ordered(
        span / second,
        span % second,
        longer / second,
        longer % second,
        sample_rate as nat,
    );
}

/// No more samples than fit into a span cover no more time than the span.
proof fn lemma_fits_within(count: nat, span: nat, sample_rate: u32)
    requires
        count <= samples_within(span, sample_rate),
    ensures
        sample_rate > 0 ==> count * NANOS_PER_SEC as nat / sample_rate as nat <= span,
{
    let rate = sample_rate as nat;
    let second = NANOS_PER_SEC as nat;
    if rate > 0 {
        vstd::arithmetic::div_mod::lemma_fundamental_div_mod((span * rate) as int, second as int);
        assert(count * second <= span * rate) by (nonlinear_arith)
            requires
                count <= span * rate / second,
                span * rate == second * (span * rate / second) + (span * rate) % second,
                (span * rate) % second >= 0,
        ;
        vstd::arithmetic::div_mod::lemma_div_is_ordered(
            (count * second) as int,
            (span * rate) as int,
            rate as int,
        );
        vstd::arithmetic::div_mod::lemma_div_by_multiple(span as int, rate as int);
    }
}

/// What is kept when a backbuffer is trimmed to a span is not more than the samples that the span is
/// counted as, as long as it is less than a third of `2^53` samples. Beyond that, double precision
/// may count fewer samples than there are.
pub proof fn law_kept_samples_are_counted(count: nat, span: nat, sample_rate: u32)
    requires
        count <= samples_within(span, sample_rate),
        3 * count < crate::double::MANTISSA_LIMIT,
        count <= usize::MAX,
    ensures
        count <= samples_in_span(span, sample_rate),
{
    let second = NANOS_PER_SEC as nat;
    let rate = sample_rate as nat;
    vstd::arithmetic::div_mod::lemma_fundamental_div_mod(span as int, second as int);
    vstd::arithmetic::div_mod::lemma_fundamental_div_mod((span * rate) as int, second as int);
    assert(span == (span / second) * second + span % second);
    crate::double::order::lemma_product_not_below(
        span / second,
        span % second,
        rate,
        count,
    );
}

/// Samples that come in are appended, one clone for each of them, and nothing else changes.
pub proof fn law_ingest_appends<S: Clone>(
    before: SampleBufferView<S>,
    samples: Seq<S>,
    after: SampleBufferView<S>,
)
    requires
        before.ingests(samples, after),
    ensures
        after.pending.len() == before.pending.len() + samples.len(),
        forall|i: int|
            0 <= i < before.pending.len() ==> #[trigger] after.pending[i] == before.pending[i],
        forall|i: int|
            0 <= i < samples.len() ==> cloned(
                #[trigger] samples[i],
                after.pending[before.pending.len() + i],
            ),
        after.back == before.back,
        after.absolute_sample == before.absolute_sample,
        after.sample_rate == before.sample_rate,
{
    let copies = choose|copies: Seq<S>|
        {
            &&& copies.len() == samples.len()
            &&& forall|i: int| 0 <= i < copies.len() ==> cloned(samples[i], #[trigger] copies[i])
            &&& after == #[trigger] before.ingested(copies)
        };
    assert forall|i: int| 0 <= i < samples.len() implies cloned(
        #[trigger] samples[i],
        after.pending[before.pending.len() + i],
    ) by {
        assert(after.pending[before.pending.len() + i] == copies[i]);
    }
}

/// What is taken are the next samples, in order: as many as were asked for, or all where there are
/// fewer. They follow the samples that were taken before, and the others go on waiting.
pub proof fn law_take_gives_the_next_samples<S>(buffer: SampleBufferView<S>, samples: nat)
    ensures
        ({
            let taken = buffer.taken(samples);
            let after = buffer.after_take(samples);
            let count = taken.len() as int;
            &&& count == samples || (count < samples && count == buffer.pending.len())
            &&& count <= buffer.pending.len()
            &&& forall|i: int| 0 <= i < count ==> #[trigger] taken[i] == buffer.pending[i]
            &&& after.back.len() == buffer.back.len() + count
            &&& forall|i: int|
                0 <= i < buffer.back.len() ==> #[trigger] after.back[i] == buffer.back[i]
            &&& forall|i: int|
                0 <= i < count ==> #[trigger] buffer.pending[i] == after.back[buffer.back.len()
                    + i]
            &&& after.pending.len() == buffer.pending.len() - count
            &&& forall|i: int|
                0 <= i < after.pending.len() ==> #[trigger] after.pending[i]
                    == buffer.pending[count + i]
            &&& after.absolute_sample == buffer.absolute_sample + count
            &&& after.sample_rate == buffer.sample_rate
        }),
{
}

/// The newest items are the last ones, in order: as many as were asked for, or all where there are
/// fewer.
pub proof fn law_newest_are_the_last<S>(items: Seq<S>, count: nat)
    ensures
        ({
            let kept = newest(items, count);
            &&& kept.len() == count || (kept.len() < count && kept.len() == items.len())
            &&& kept.len() <= items.len()
            &&& forall|i: int|
                0 <= i < kept.len() ==> #[trigger] kept[i] == items[items.len() - kept.len() + i]
        }),
{
}

/// Trimming a backbuffer to a span drops no more than it has to: one sample more would cover more
/// time than the span. One that covers no more than the span is left as it is. Of whole seconds,
/// all samples are kept.
pub proof fn law_trim_drops_no_more_than_it_has_to<S>(
    buffer: SampleBufferView<S>,
    span: nat,
    secs: nat,
)
    ensures
        ({
            let rate = buffer.sample_rate;
            let after = buffer.trimmed(samples_within(span, rate));
            let kept = after.back.len();
            &&& kept <= buffer.back.len()
            &&& kept * NANOS_PER_SEC <= span * rate
            &&& kept < buffer.back.len() ==> (kept + 1) * NANOS_PER_SEC > span * rate
            &&& after.back == buffer.back.skip(buffer.back.len() - kept)
            &&& buffer.back.len() * NANOS_PER_SEC <= span * rate ==> after == buffer
            &&& span == secs * NANOS_PER_SEC && buffer.back.len() >= secs * rate ==> kept == secs
                * rate
        }),
{
    let rate = buffer.sample_rate as nat;
    let second = NANOS_PER_SEC as nat;
    let fitting = samples_within(span, buffer.sample_rate);
    let kept = buffer.trimmed(fitting).back.len();
    law_trim_keeps_the_newest(buffer, fitting, fitting);
    vstd::arithmetic::div_mod::lemma_fundamental_div_mod((span * rate) as int, second as int);
    vstd::arithmetic::div_mod::lemma_mod_bound((span * rate) as int, second as int);
    if buffer.back.len() * second <= span * rate {
        assert(buffer.back.len() <= fitting) by (nonlinear_arith)
            requires
                buffer.back.len() * second <= span * rate,
                span * rate < second * (fitting + 1),
        ;
    }
    if span == secs * second {
        assert(span * rate == second * (secs * rate)) by (nonlinear_arith)
            requires
                span == secs * second,
        ;
        vstd::arithmetic::div_mod::lemma_div_multiples_vanish((secs * rate) as int, second as int);
    }
}

/// The number of samples that a time is counted as is less than two above the exact number, as long
/// as that is below a quarter of `2^53`.
pub proof fn law_counts_are_close(span: nat, sample_rate: u32)
    requires
        4 * (span * sample_rate) <= crate::double::MANTISSA_LIMIT * NANOS_PER_SEC,
    ensures
        samples_in_span(span, sample_rate) * NANOS_PER_SEC < span * sample_rate + 2 * NANOS_PER_SEC,
{
    let second = NANOS_PER_SEC as nat;
    let rate = sample_rate as nat;
    vstd::arithmetic::div_mod::lemma_fundamental_div_mod(span as int, second as int);
    assert(span == (span / second) * second + span % second);
    crate::double::order::lemma_product_not_above(span / second, span % second, rate);
}

/// The number of samples of a span is the product of its seconds and the rate as double precision
/// gives it, rounded up, as long as this can be held, and else the largest number that can.
pub proof fn law_count_is_held(secs: nat, nanos: nat, sample_rate: u32)
    requires
        nanos < NANOS_PER_SEC,
    ensures
        ({
            let exact = crate::double::ceiling_of_product(secs, nanos, sample_rate as nat);
            let count = samples_in_span(secs * NANOS_PER_SEC as nat + nanos, sample_rate);
            &&& exact <= usize::MAX ==> count == exact
            &&& exact > usize::MAX ==> count == usize::MAX
        }),
{
    vstd::arithmetic::div_mod::lemma_fundamental_div_mod_converse(
        (secs * NANOS_PER_SEC as nat + nanos) as int,
        NANOS_PER_SEC as int,
        secs as int,
        nanos as int,
    );
}

} // verus!
