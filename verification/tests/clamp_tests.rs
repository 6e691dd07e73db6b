use libraytracer::clamp::{Clamp, Rgb};

#[derive(Clone, Copy, Debug, PartialEq)]
struct Real(f32);

impl Clamp for Real {
    fn clamped(&self, min: Real, max: Real) -> Real {
        Clamp::clamp(self, min, max)
    }

    fn saturated(&self) -> Real {
        self.saturate()
    }

    fn nan_fixed(&self) -> Real {
        self.fix_nan()
    }

    fn clamp(&self, min: Real, max: Real) -> Real {
        if self.0 < min.0 {
            min
        } else if self.0 > max.0 {
            max
        } else {
            *self
        }
    }

    fn saturate(&self) -> Real {
        Clamp::clamp(self, Real(0.0), Real(1.0))
    }

    fn fix_nan(&self) -> Real {
        if self.0.is_nan() {
            Real(0.0)
        } else {
            *self
        }
    }
}

#[test]
fn channel_clamp_keeps_values_inside_the_range() {
    assert_eq!(Clamp::clamp(&5u8, 1, 9), 5);
    assert_eq!(Clamp::clamp(&0u8, 1, 9), 1);
    assert_eq!(Clamp::clamp(&200u8, 1, 9), 9);
    assert_eq!(Clamp::clamp(&1u8, 1, 9), 1);
    assert_eq!(Clamp::clamp(&9u8, 1, 9), 9);
}

#[test]
fn channel_clamp_prefers_min_when_bounds_cross() {
    assert_eq!(Clamp::clamp(&3u8, 9, 1), 9);
    assert_eq!(Clamp::clamp(&20u8, 9, 1), 1);
}

#[test]
fn channel_saturate_stops_at_one() {
    assert_eq!(0u8.saturate(), 0);
    assert_eq!(1u8.saturate(), 1);
    assert_eq!(255u8.saturate(), 1);
}

#[test]
fn channel_fix_nan_changes_nothing() {
    assert_eq!(0u8.fix_nan(), 0);
    assert_eq!(37u8.fix_nan(), 37);
}

#[test]
fn color_clamps_each_channel_by_its_own_bounds() {
    let color = Rgb::new(0u8, 50, 250);
    let low = Rgb::new(10u8, 20, 30);
    let high = Rgb::new(100u8, 40, 200);
    let clamped = Clamp::clamp(&color, low, high);
    assert_eq!((clamped.red, clamped.green, clamped.blue), (10, 40, 200));
}

#[test]
fn color_saturates_each_channel() {
    let color = Rgb::new(Real(-0.5), Real(0.25), Real(7.0));
    let s = color.saturate();
    assert_eq!((s.red, s.green, s.blue), (Real(0.0), Real(0.25), Real(1.0)));
}

#[test]
fn color_fixes_each_channel() {
    let color = Rgb::new(Real(f32::NAN), Real(-2.0), Real(0.5));
    let fixed = color.fix_nan();
    assert_eq!((fixed.red, fixed.green, fixed.blue), (Real(0.0), Real(-2.0), Real(0.5)));
}
