//! Audio input: the samples of a device, channel by channel.

use vstd::prelude::*;

pub mod buffer;
pub mod channels;
pub mod managed;

verus! {

/// How many samples a channel delivers in a second.
#[derive(Debug, Clone, Copy, PartialEq, Eq, Structural)]
pub struct SampleRate(pub u32);

/// Converts samples, one by one, to another type.
pub fn converted<I: Copy, O, F: Fn(I) -> O>(samples: &[I], convert: F) -> (out: Vec<O>)
    requires
        forall|sample: I| call_requires(convert, (sample,)),
    ensures
        out@.len() == samples@.len(),
        forall|i: int|
            0 <= i < samples@.len() ==> call_ensures(convert, (samples@[i],), #[trigger] out@[i]),
{
    let mut out: Vec<O> = Vec::with_capacity(samples.len());
    while out.len() < samples.len()
        invariant
            out@.len() <= samples@.len(),
            forall|sample: I| call_requires(convert, (sample,)),
            forall|i: int|
                0 <= i < out@.len() ==> call_ensures(convert, (samples@[i],), #[trigger] out@[i]),
        decreases samples@.len() - out@.len(),
    {
        let sample = convert(samples[out.len()]);
        out.push(sample);
    }
    out
}

} // verus!
