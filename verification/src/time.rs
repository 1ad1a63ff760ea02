//! Spans of time.

use vstd::prelude::*;

verus! {

/// The nanoseconds of a second.
pub const NANOS_PER_SEC: u32 = 1_000_000_000;

/// A span of time, to the nanosecond.
#[derive(Debug, Clone, Copy, PartialEq, Eq)]
pub struct Duration {
    secs: u64,
    nanos: u32,
}

impl View for Duration {
    type V = nat;

    /// The span in nanoseconds.
    closed spec fn view(&self) -> nat {
        self.secs as nat * NANOS_PER_SEC as nat + self.nanos as nat
    }
}

impl Duration {
    #[verifier::type_invariant]
    spec fn normal(self) -> bool {
        self.nanos < NANOS_PER_SEC
    }

    /// A span of `secs` seconds and `nanos` nanoseconds.
    pub fn new(secs: u64, nanos: u32) -> (span: Self)
        requires
            secs + nanos / NANOS_PER_SEC <= u64::MAX,
        ensures
            span@ == secs * NANOS_PER_SEC + nanos,
    {
        Duration { secs: secs + (nanos / NANOS_PER_SEC) as u64, nanos: nanos % NANOS_PER_SEC }
    }

    /// A span of whole seconds.
    pub fn from_secs(secs: u64) -> (span: Self)
        ensures
            span@ == secs * NANOS_PER_SEC,
    {
        Duration { secs, nanos: 0 }
    }

    /// A span of whole milliseconds.
    pub fn from_millis(millis: u64) -> (span: Self)
        ensures
            span@ == millis * 1_000_000,
    {
        Duration { secs: millis / 1000, nanos: (millis % 1000) as u32 * 1_000_000 }
    }

    /// A span of whole nanoseconds.
    pub fn from_nanos(nanos: u64) -> (span: Self)
        ensures
            span@ == nanos,
    {
        proof {
            vstd::arithmetic::div_mod::lemma_fundamental_div_mod(
                nanos as int,
                NANOS_PER_SEC as int,
            );
        }
        Duration {
            secs: nanos / NANOS_PER_SEC as u64,
            nanos: (nanos % NANOS_PER_SEC as u64) as u32,
        }
    }

    /// The whole seconds of the span.
    pub fn as_secs(&self) -> (secs: u64)
        ensures
            secs == self@ / NANOS_PER_SEC as nat,
    {
        proof {
            use_type_invariant(self);
        }
        self.secs
    }

    /// What the span has beyond its whole seconds, in nanoseconds.
    pub fn subsec_nanos(&self) -> (nanos: u32)
        ensures
            nanos == self@ % NANOS_PER_SEC as nat,
            nanos < NANOS_PER_SEC,
    {
        proof {
            use_type_invariant(self);
        }
        self.nanos
    }
}

} // verus!
