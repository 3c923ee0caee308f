//! Value types for synthesis: clamped amplitudes and signal samples.

use vstd::prelude::*;
use crate::AMP_ONE;

verus! {

/// What a raw amplitude reading clamps to: a `None` reading (a non-finite
/// measurement) becomes 0, and anything outside `[0, AMP_ONE]` is clamped
/// into that range.
pub open spec fn amp_clamped(raw: Option<i64>) -> int {
    match raw {
        Option::None => 0,
        Option::Some(v) => {
            if v < 0 {
                0
            } else if v > AMP_ONE {
                AMP_ONE as int
            } else {
                v as int
            }
        },
    }
}

/// What a raw signal reading becomes: a `None` reading (a non-finite
/// measurement) becomes 0; any finite reading is kept as it is.
pub open spec fn signal_of(raw: Option<i64>) -> int {
    match raw {
        Option::None => 0,
        Option::Some(v) => v as int,
    }
}

/// The amplitude of one frequency component, in fixed point:
/// `AMP_ONE` stands for 1.0. Always in `[0, AMP_ONE]`.
#[derive(Clone, Copy, Debug, PartialEq, Eq, Structural)]
pub struct Amplitude {
    amp: u32,
}

impl View for Amplitude {
    type V = int;

    closed spec fn view(&self) -> int {
        self.amp as int
    }
}

impl Amplitude {
    /// Creates a new amplitude from a raw fixed-point reading.
    /// A reading outside `[0, AMP_ONE]` is clamped into range, and a
    /// `None` reading (standing for a non-finite measurement) becomes 0.
    pub fn from(raw: Option<i64>) -> (result: Amplitude)
        ensures
            result@ == amp_clamped(raw),
            0 <= result@ <= AMP_ONE,
    {
        match raw {
            Option::None => Amplitude { amp: 0 },
            Option::Some(v) => {
                if v < 0 {
                    Amplitude { amp: 0 }
                } else if v > AMP_ONE as i64 {
                    Amplitude { amp: AMP_ONE }
                } else {
                    Amplitude { amp: v as u32 }
                }
            },
        }
    }

    /// Returns the value of this amplitude, in units of `AMP_ONE`.
    pub fn value(self) -> (result: u32)
        ensures
            result as int == self@,
    {
        self.amp
    }
}

/// The value of an audio signal at a point in time, in fixed point:
/// `SIG_ONE` stands for 1.0. Unbounded before normalization, and totally
/// ordered by the signal level it holds.
#[derive(Clone, Copy, Debug, PartialEq, Eq, PartialOrd, Ord, Structural)]
pub struct Value {
    value: i64,
}

impl View for Value {
    type V = int;

    closed spec fn view(&self) -> int {
        self.value as int
    }
}

impl Value {
    /// Creates a new signal value from a raw fixed-point reading.
    /// A `None` reading (standing for a non-finite measurement) becomes 0.
    pub fn from(raw: Option<i64>) -> (result: Value)
        ensures
            result@ == signal_of(raw),
    {
        match raw {
            Option::None => Value { value: 0 },
            Option::Some(v) => Value { value: v },
        }
    }

    /// Returns the value of this signal sample, in units of `SIG_ONE`.
    pub fn value(self) -> (result: i64)
        ensures
            result as int == self@,
    {
        self.value
    }

    /// Returns the absolute value of this signal sample.
    pub fn abs(self) -> (result: Value)
        requires
            self@ > i64::MIN,
        ensures
            result@ == vstd::math::abs(self@),
    {
        if self.value < 0 {
            Value { value: -self.value }
        } else {
            self
        }
    }
}

} // verus!
