//! Fixed-point decimal arithmetic.
//!
//! A monetary value is an integer count of hundredths (two decimal
//! places); quantities, exchange rates and tax rates are integer counts
//! of ten-thousandths (four decimal places).  Every multiplication or
//! division is rounded back to two decimal places at once, rounding
//! halves to the even neighbour.  Values are kept within `MAX_FIXED`;
//! an operation whose exact result would leave that range reports it.

use vstd::prelude::*;

verus! {

/// Greatest magnitude, in scaled units, that a stored value may take.
pub const MAX_FIXED: i128 = 1_000_000_000_000_000_000;

/// Greatest magnitude a product of two in-range values may take.
pub const MAX_PRODUCT: i128 = 1_000_000_000_000_000_000_000_000_000_000_000_000;

/// Scale factor of four-decimal-place fixed-point values.
pub const SCALE4: i128 = 10_000;

/// A scaled value small enough to be stored.
pub open spec fn in_range(v: int) -> bool {
    -MAX_FIXED <= v <= MAX_FIXED
}

/// The integer nearest to the rational `n / d` (for `d > 0`), halves
/// rounded to the even neighbour.
pub open spec fn round_half_even(n: int, d: int) -> int
    recommends
        d > 0,
{
    let q = n / d;
    let r = n % d;
    if 2 * r < d {
        q
    } else if 2 * r > d {
        q + 1
    } else if q % 2 == 0 {
        q
    } else {
        q + 1
    }
}

/// `a * b` scaled back by four decimal places, rounded half to even:
/// the product of a two-place value and a four-place value, as a
/// two-place value.
pub open spec fn round2_prod(a: int, b: int) -> int {
    round_half_even(a * b, SCALE4 as int)
}

/// `a / s` where `a` has two decimal places and `s` four, rounded half
/// to even to a two-place value.
pub open spec fn round2_quot(a: int, s: int) -> int
    recommends
        s != 0,
{
    if s > 0 {
        round_half_even(a * SCALE4, s)
    } else {
        round_half_even(-(a * SCALE4), -s)
    }
}

proof fn lemma_euclid_div_bounds(n: int, d: int)
    requires
        0 < d <= MAX_FIXED,
        -MAX_PRODUCT <= n <= MAX_PRODUCT,
    ensures
        -MAX_PRODUCT - MAX_FIXED <= n / d <= MAX_PRODUCT,
        0 <= n % d < d,
{
    vstd::arithmetic::div_mod::lemma_fundamental_div_mod(n, d);
    vstd::arithmetic::div_mod::lemma_mod_bound(n, d);
    let q = n / d;
    let r = n % d;
    assert(-MAX_PRODUCT - MAX_FIXED <= q <= MAX_PRODUCT) by (nonlinear_arith)
        requires
            n == d * q + r,
            0 <= r < d,
            0 < d <= MAX_FIXED,
            -MAX_PRODUCT <= n <= MAX_PRODUCT,
    ;
}

pub fn round_half_even_i128(n: i128, d: i128) -> (r: i128)
    requires
        0 < d <= MAX_FIXED,
        -MAX_PRODUCT <= n <= MAX_PRODUCT,
    ensures
        r == round_half_even(n as int, d as int),
{
    proof {
        lemma_euclid_div_bounds(n as int, d as int);
    }
    let q = n.checked_div_euclid(d).unwrap();
    let m = n.checked_rem_euclid(d).unwrap();
    if 2 * m < d {
        q
    } else if 2 * m > d {
        q + 1
    } else if q.checked_rem_euclid(2).unwrap() == 0 {
        q
    } else {
        q + 1
    }
}

/// The exact sum when it stays in range, nothing otherwise.
pub fn add_fixed(a: i128, b: i128) -> (r: Option<i128>)
    requires
        in_range(a as int),
        in_range(b as int),
    ensures
        in_range(a + b) ==> r == Some((a + b) as i128),
        !in_range(a + b) ==> r is None,
{
    let s = a + b;
    if -MAX_FIXED <= s && s <= MAX_FIXED {
        Some(s)
    } else {
        None
    }
}

/// The exact difference when it stays in range, nothing otherwise.
pub fn sub_fixed(a: i128, b: i128) -> (r: Option<i128>)
    requires
        in_range(a as int),
        in_range(b as int),
    ensures
        in_range(a - b) ==> r == Some((a - b) as i128),
        !in_range(a - b) ==> r is None,
{
    let s = a - b;
    if -MAX_FIXED <= s && s <= MAX_FIXED {
        Some(s)
    } else {
        None
    }
}

/// `round2_prod(a, b)` when it stays in range, nothing otherwise.
pub fn mul_fixed_round(a: i128, b: i128) -> (r: Option<i128>)
    requires
        in_range(a as int),
        in_range(b as int),
    ensures
        in_range(round2_prod(a as int, b as int)) ==> r == Some(round2_prod(a as int, b as int) as i128),
        !in_range(round2_prod(a as int, b as int)) ==> r is None,
{
    assert(-MAX_PRODUCT <= a * b <= MAX_PRODUCT) by (nonlinear_arith)
        requires
            -MAX_FIXED <= a <= MAX_FIXED,
            -MAX_FIXED <= b <= MAX_FIXED,
    ;
    let p = a * b;
    let v = round_half_even_i128(p, SCALE4);
    if -MAX_FIXED <= v && v <= MAX_FIXED {
        Some(v)
    } else {
        None
    }
}

/// `round2_quot(a, s)` when it stays in range, nothing otherwise.
pub fn div_fixed_round(a: i128, s: i128) -> (r: Option<i128>)
    requires
        in_range(a as int),
        in_range(s as int),
        s != 0,
    ensures
        in_range(round2_quot(a as int, s as int)) ==> r == Some(round2_quot(a as int, s as int) as i128),
        !in_range(round2_quot(a as int, s as int)) ==> r is None,
{
    let n = a * SCALE4;
    let v = if s > 0 {
        round_half_even_i128(n, s)
    } else {
        round_half_even_i128(-n, -s)
    };
    if -MAX_FIXED <= v && v <= MAX_FIXED {
        Some(v)
    } else {
        None
    }
}

} // verus!
