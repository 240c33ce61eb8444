//! Moments in a stream.

use vstd::prelude::*;

verus! {

/// How long after the start of its stream something belongs.
///
/// Counted in nanoseconds, and never more than 2⁶⁴ seconds: what every
/// protocol's own clock can be turned into without loss.
#[derive(Clone, Copy, Debug, PartialEq, Eq, PartialOrd, Ord, Hash)]
pub struct MediaTime {
    nanos: u128,
}

/// One nanosecond past the last moment there is: 2⁶⁴ seconds.
pub const END_OF_TIME: u128 = 18_446_744_073_709_551_616_000_000_000;

impl View for MediaTime {
    type V = nat;

    /// The nanoseconds.
    closed spec fn view(&self) -> nat {
        self.nanos as nat
    }
}

impl MediaTime {
    #[verifier::type_invariant]
    spec fn is_in_time(self) -> bool {
        self.nanos < END_OF_TIME
    }

    /// The start of the stream.
    pub fn zero() -> (time: Self)
        ensures
            time@ == 0,
    {
        Self { nanos: 0 }
    }

    /// A whole number of seconds in.
    pub fn from_secs(secs: u64) -> (time: Self)
        ensures
            time@ == secs * 1_000_000_000,
    {
        Self { nanos: secs as u128 * 1_000_000_000 }
    }

    /// A whole number of milliseconds in.
    pub fn from_millis(millis: u64) -> (time: Self)
        ensures
            time@ == millis * 1_000_000,
    {
        Self { nanos: millis as u128 * 1_000_000 }
    }

    /// The nanoseconds.
    pub fn as_nanos(self) -> (nanos: u128)
        ensures
            nanos == self@,
            self@ < END_OF_TIME,
    {
        proof {
            use_type_invariant(&self);
        }
        self.nanos
    }

    /// A moment further on.
    pub fn plus(self, by: MediaTime) -> (time: Self)
        requires
            self@ + by@ < END_OF_TIME,
        ensures
            time@ == self@ + by@,
    {
        Self { nanos: self.nanos + by.nanos }
    }

    /// A moment further back, but no further than the start.
    pub fn saturating_sub(self, by: MediaTime) -> (time: Self)
        ensures
            time@ == if self@ < by@ {
                0
            } else {
                (self@ - by@) as nat
            },
    {
        proof {
            use_type_invariant(&self);
        }
        if self.nanos < by.nanos {
            Self { nanos: 0 }
        } else {
            Self { nanos: self.nanos - by.nanos }
        }
    }
}

} // verus!
