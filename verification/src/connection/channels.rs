//! Samples that were sorted by channel.

use vstd::prelude::*;

verus! {

/// How many of the first `len` whole numbers leave the remainder `channel` modulo `channels`.
pub open spec fn share(len: int, channel: int, channels: int) -> int {
    (len + channels - 1 - channel) / channels
}

/// The samples of one channel: every `channels`th sample, starting with the one at `channel`.
pub open spec fn samples_of<S>(interleaved: Seq<S>, channel: int, channels: int) -> Seq<S> {
    Seq::new(
        share(interleaved.len() as int, channel, channels) as nat,
        |k: int| interleaved[channel + k * channels],
    )
}

/// A batch of samples, one vector for each channel.
pub struct ChannelInfo<Sample> {
    pub channels: Vec<Vec<Sample>>,
}

/// Makes empty batches, and used ones empty again.
#[derive(Debug, Clone, Copy)]
pub struct ChannelInfoRecycler {
    /// How many channels a batch has
    pub channels: usize,
    /// How many samples of a channel a new batch has room for
    pub default_sample_count: usize,
}

impl<Sample> ChannelInfo<Sample> {
    /// Appends samples that take turns: the first one is for the first channel, the next one for
    /// the second, and after the last channel it is the turn of the first one again. The last
    /// turn may be incomplete.
    pub fn extend_from_interleaved(&mut self, interleaved: Vec<Sample>)
        requires
            old(self).channels@.len() > 0,
        ensures
            final(self).channels@.len() == old(self).channels@.len(),
            forall|c: int|
                0 <= c < old(self).channels@.len() ==> (#[trigger] final(self).channels@[c])@
                    == old(self).channels@[c]@ + samples_of(
                    interleaved@,
                    c,
                    old(self).channels@.len() as int,
                ),
    {
        let channels: usize = self.channels.len();
        let samples: usize = interleaved.len() / channels;
        let ghost n = channels as int;
        let ghost before = self.channels@;
        let ghost all = interleaved@;
        let mut channel: usize = 0;
        while channel < channels
            invariant
                channel <= channels,
                channels == n,
                n == before.len(),
                self.channels@.len() == n,
                forall|c: int| 0 <= c < n ==> (#[trigger] self.channels@[c])@ == before[c]@,
            decreases channels - channel,
        {
            self.channels[channel].reserve(samples);
            channel += 1;
        }
        proof {
            assert forall|c: int| 0 <= c < n implies (#[trigger] self.channels@[c])@ == before[c]@
                + samples_of(all.take(0), c, n) by {
                lemma_share_zero(c, n);
                assert(before[c]@ + samples_of(all.take(0), c, n) =~= before[c]@);
            }
        }
        let mut idx: usize = 0;
        for sample in it: interleaved
            invariant
                channels == n,
                n > 0,
                idx == it.index(),
                it.seq() == all,
                idx <= all.len() <= usize::MAX,
                self.channels@.len() == n,
                before.len() == n,
                forall|c: int|
                    0 <= c < n ==> (#[trigger] self.channels@[c])@ == before[c]@ + samples_of(
                        all.take(idx as int),
                        c,
                        n,
                    ),
        {
            let ghost earlier = self.channels@;
            proof {
                vstd::arithmetic::div_mod::lemma_mod_bound(idx as int, n);
            }
            self.channels[idx % channels].push(sample);
            proof {
                assert forall|c: int| 0 <= c < n implies (#[trigger] self.channels@[c])@
                    == before[c]@ + samples_of(all.take(idx + 1), c, n) by {
                    lemma_next_sample(all, idx as int, c, n);
                    assert(earlier[c]@ == before[c]@ + samples_of(all.take(idx as int), c, n));
                    if c == idx as int % n {
                        assert(self.channels@[c]@ == earlier[c]@.push(all[idx as int]));
                        assert(self.channels@[c]@ =~= before[c]@ + samples_of(
                            all.take(idx + 1),
                            c,
                            n,
                        ));
                    }
                }
            }
            idx += 1;
        }
        assert(all.take(all.len() as int) =~= all);
    }
}

/// Calls [`Vec::shrink_to_fit`], which gives back the room that a vector does not use. It does not
/// change what the vector holds.
#[verifier::external_body]
fn shrink_to_fit<T>(vec: &mut Vec<T>)
    ensures
        final(vec)@ == old(vec)@,
{
    vec.shrink_to_fit()
}

impl ChannelInfoRecycler {
    /// A batch without samples.
    pub fn new_element<Sample>(&self) -> (element: ChannelInfo<Sample>)
        ensures
            element.channels@.len() == self.channels,
            forall|c: int|
                0 <= c < self.channels ==> (#[trigger] element.channels@[c])@ == Seq::<
                    Sample,
                >::empty(),
    {
        let mut channels: Vec<Vec<Sample>> = Vec::new();
        while channels.len() < self.channels
            invariant
                channels@.len() <= self.channels,
                forall|c: int|
                    0 <= c < channels@.len() ==> (#[trigger] channels@[c])@ == Seq::<
                        Sample,
                    >::empty(),
            decreases self.channels - channels@.len(),
        {
            channels.push(Vec::with_capacity(self.default_sample_count));
        }
        ChannelInfo { channels }
    }

    /// Drops the samples of a batch, and the room that they did not use.
    pub fn recycle<Sample>(&self, element: &mut ChannelInfo<Sample>)
        ensures
            final(element).channels@.len() == old(element).channels@.len(),
            forall|c: int|
                0 <= c < old(element).channels@.len() ==> (#[trigger] final(element).channels@[c])@
                    == Seq::<Sample>::empty(),
    {
        let mut idx: usize = 0;
        while idx < element.channels.len()
            invariant
                idx <= element.channels@.len(),
                element.channels@.len() == old(element).channels@.len(),
                forall|c: int|
                    0 <= c < idx ==> (#[trigger] element.channels@[c])@ == Seq::<Sample>::empty(),
            decreases element.channels@.len() - idx,
        {
            shrink_to_fit(&mut element.channels[idx]);
            element.channels[idx].clear();
            idx += 1;
        }
    }
}

/// Every sample is found again: the one at `idx` belongs to channel `idx % channels`, and is
/// number `idx / channels` there.
pub proof fn law_sample_is_kept<S>(interleaved: Seq<S>, idx: int, channels: int)
    requires
        0 <= idx < interleaved.len(),
        channels > 0,
    ensures
        0 <= idx % channels < channels,
        0 <= idx / channels < samples_of(interleaved, idx % channels, channels).len(),
        samples_of(interleaved, idx % channels, channels)[idx / channels] == interleaved[idx],
{
    let n = channels;
    let q = idx / n;
    let r = idx % n;
    vstd::arithmetic::div_mod::lemma_fundamental_div_mod(idx, n);
    vstd::arithmetic::div_mod::lemma_mod_bound(idx, n);
    vstd::arithmetic::div_mod::lemma_div_pos_is_pos(idx, n);
    let total = interleaved.len() + n - 1 - r;
    assert(n * (q + 1) == n * q + n) by (nonlinear_arith);
    vstd::arithmetic::div_mod::lemma_div_is_ordered(n * (q + 1), total, n);
    vstd::arithmetic::div_mod::lemma_div_multiples_vanish(q + 1, n);
    assert(q * n == n * q) by (nonlinear_arith);
}

/// Every channel gets as many samples as there are complete turns, and the channels of the
/// incomplete last turn get one more.
pub proof fn law_shares_differ_by_one<S>(interleaved: Seq<S>, channel: int, channels: int)
    requires
        0 <= channel < channels,
    ensures
        samples_of(interleaved, channel, channels).len() == interleaved.len() as int / channels
            + (if channel < interleaved.len() as int % channels {
            1int
        } else {
            0int
        }),
{
    let n = channels;
    let len = interleaved.len() as int;
    let q = len / n;
    let r = len % n;
    vstd::arithmetic::div_mod::lemma_fundamental_div_mod(len, n);
    vstd::arithmetic::div_mod::lemma_mod_bound(len, n);
    vstd::arithmetic::div_mod::lemma_div_pos_is_pos(len, n);
    assert(n * (q + 1) == n * q + n) by (nonlinear_arith);
    if channel < r {
        vstd::arithmetic::div_mod::lemma_fundamental_div_mod_converse(
            len + n - 1 - channel,
            n,
            q + 1,
            r - 1 - channel,
        );
    } else {
        vstd::arithmetic::div_mod::lemma_fundamental_div_mod_converse(
            len + n - 1 - channel,
            n,
            q,
            r + n - 1 - channel,
        );
    }
}

proof fn lemma_share_zero(channel: int, channels: int)
    requires
        0 <= channel < channels,
    ensures
        share(0, channel, channels) == 0,
{
    vstd::arithmetic::div_mod::lemma_basic_div(channels - 1 - channel, channels);
}

/// One more sample goes to the channel whose turn it is, and to no other.
proof fn lemma_next_sample<S>(all: Seq<S>, idx: int, channel: int, channels: int)
    requires
        0 <= idx < all.len(),
        0 <= channel < channels,
    ensures
        samples_of(all.take(idx + 1), channel, channels) == (if channel == idx % channels {
            samples_of(all.take(idx), channel, channels).push(all[idx])
        } else {
            samples_of(all.take(idx), channel, channels)
        }),
{
    let n = channels;
    let q = idx / n;
    let r = idx % n;
    vstd::arithmetic::div_mod::lemma_fundamental_div_mod(idx, n);
    vstd::arithmetic::div_mod::lemma_mod_bound(idx, n);
    let before = idx + n - 1 - channel;
    // before == n * q + (r + n - 1 - channel), and the bracket is below 2 * n.
    assert(n * (q + 1) == n * q + n) by (nonlinear_arith);
    if r <= channel {
        vstd::arithmetic::div_mod::lemma_fundamental_div_mod_converse(
            before,
            n,
            q,
            r + n - 1 - channel,
        );
    } else {
        vstd::arithmetic::div_mod::lemma_fundamental_div_mod_converse(
            before,
            n,
            q + 1,
            r - 1 - channel,
        );
    }
    if r < channel {
        vstd::arithmetic::div_mod::lemma_fundamental_div_mod_converse(
            before + 1,
            n,
            q,
            r + n - channel,
        );
    } else {
        vstd::arithmetic::div_mod::lemma_fundamental_div_mod_converse(
            before + 1,
            n,
            q + 1,
            r - channel,
        );
    }
    let short = samples_of(all.take(idx), channel, n);
    let long = samples_of(all.take(idx + 1), channel, n);
    assert forall|k: int| 0 <= k < short.len() implies short[k] == #[trigger] long[k] by {
        lemma_share_index(idx, channel, n, k);
    }
    if r == channel {
        assert(long.len() == short.len() + 1);
        assert(q * n == n * q) by (nonlinear_arith);
        assert(long[q] == all[idx]);
        assert(long =~= short.push(all[idx]));
    } else {
        assert(long =~= short);
    }
}

/// The samples of a channel are samples of the batch.
proof fn lemma_share_index(len: int, channel: int, channels: int, k: int)
    requires
        0 <= len,
        0 <= channel < channels,
        0 <= k < share(len, channel, channels),
    ensures
        0 <= channel + k * channels < len,
{
    let total = len + channels - 1 - channel;
    vstd::arithmetic::div_mod::lemma_fundamental_div_mod(total, channels);
    vstd::arithmetic::div_mod::lemma_mod_bound(total, channels);
    let q = total / channels;
    assert(k * channels <= channels * q - channels && k * channels >= 0) by (nonlinear_arith)
        requires
            0 <= k,
            k + 1 <= q,
            channels > 0,
    ;
}

} // verus!
