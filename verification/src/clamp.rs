//! Forcing values into a range, for scalars and elementwise for colors.

use vstd::prelude::*;

verus! {

/// Values that can be forced into a range.
///
/// Each operation comes with a spec function that says what it returns, so
/// that code generic over the trait can state results channel by channel.
/// Every implementation states all three.
pub trait Clamp: Sized {
    /// What `clamp` returns.
    spec fn clamped(&self, min: Self, max: Self) -> Self;

    /// What `saturate` returns.
    spec fn saturated(&self) -> Self;

    /// What `fix_nan` returns.
    spec fn nan_fixed(&self) -> Self;

    /// `min` if the value lies below it, `max` if it lies above that, and
    /// the value itself otherwise.
    fn clamp(&self, min: Self, max: Self) -> (r: Self)
        ensures
            r == self.clamped(min, max),
    ;

    /// The value clamped to the range from zero to one.
    fn saturate(&self) -> (r: Self)
        ensures
            r == self.saturated(),
    ;

    /// Zero if the value is not a number, and the value itself otherwise.
    fn fix_nan(&self) -> (r: Self)
        ensures
            r == self.nan_fixed(),
    ;
}

/// An 8-bit display channel. Every value is a number, so `fix_nan` changes
/// nothing.
impl Clamp for u8 {
    open spec fn clamped(&self, min: u8, max: u8) -> u8 {
        if *self < min {
            min
        } else if *self > max {
            max
        } else {
            *self
        }
    }

    open spec fn saturated(&self) -> u8 {
        self.clamped(0, 1)
    }

    open spec fn nan_fixed(&self) -> u8 {
        *self
    }

    fn clamp(&self, min: u8, max: u8) -> (r: u8) {
        if *self < min {
            min
        } else if *self > max {
            max
        } else {
            *self
        }
    }

    fn saturate(&self) -> (r: u8) {
        Clamp::clamp(self, 0, 1)
    }

    fn fix_nan(&self) -> (r: u8) {
        *self
    }
}

/// A color of three channels: red, green and blue.
#[derive(Clone, Copy, Debug)]
pub struct Rgb<S> {
    /// The red channel.
    pub red: S,
    /// The green channel.
    pub green: S,
    /// The blue channel.
    pub blue: S,
}

impl<S> Rgb<S> {
    /// The color with the given channels.
    pub fn new(red: S, green: S, blue: S) -> (color: Rgb<S>)
        ensures
            color.red == red,
            color.green == green,
            color.blue == blue,
    {
        Rgb { red, green, blue }
    }
}

/// A color is clamped channel by channel.
impl<S: Clamp> Clamp for Rgb<S> {
    open spec fn clamped(&self, min: Rgb<S>, max: Rgb<S>) -> Rgb<S> {
        Rgb {
            red: self.red.clamped(min.red, max.red),
            green: self.green.clamped(min.green, max.green),
            blue: self.blue.clamped(min.blue, max.blue),
        }
    }

    open spec fn saturated(&self) -> Rgb<S> {
        Rgb {
            red: self.red.saturated(),
            green: self.green.saturated(),
            blue: self.blue.saturated(),
        }
    }

    open spec fn nan_fixed(&self) -> Rgb<S> {
        Rgb {
            red: self.red.nan_fixed(),
            green: self.green.nan_fixed(),
            blue: self.blue.nan_fixed(),
        }
    }

    fn clamp(&self, min: Rgb<S>, max: Rgb<S>) -> (r: Rgb<S>) {
        Rgb {
            red: self.red.clamp(min.red, max.red),
            green: self.green.clamp(min.green, max.green),
            blue: self.blue.clamp(min.blue, max.blue),
        }
    }

    fn saturate(&self) -> (r: Rgb<S>) {
        Rgb {
            red: self.red.saturate(),
            green: self.green.saturate(),
            blue: self.blue.saturate(),
        }
    }

    fn fix_nan(&self) -> (r: Rgb<S>) {
        Rgb { red: self.red.fix_nan(), green: self.green.fix_nan(), blue: self.blue.fix_nan() }
    }
}

} // verus!
