//! Tax rates as fixed-point factors.

use vstd::prelude::*;

use crate::fixed::in_range;

verus! {

/// A tax rate given in hundredths (percent), held as a
/// four-decimal-place fixed-point factor.
#[derive(Debug, Clone, Copy, PartialEq, Eq, Structural)]
pub struct Tax {
    pub factor: i128,
}

impl Tax {
    /// The rate `value / 100`, e.g. `Tax::new(19)` is nineteen percent.
    pub fn new(value: i64) -> (t: Tax)
        requires
            in_range(value * 100),
        ensures
            t.factor == value * 100,
    {
        Tax { factor: (value as i128) * 100 }
    }

    /// The rate as a four-decimal-place factor, ready for
    /// `Currency::multiply`.
    pub fn get_value(&self) -> (v: i128)
        ensures
            v == self.factor,
    {
        self.factor
    }
}

} // verus!
