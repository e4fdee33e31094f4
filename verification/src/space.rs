//! Colour-space metrics: squared distance between two colours.

use vstd::prelude::*;
use crate::colour::Rgb;

verus! {

/// Squared distance between two colours in the RGB cube: the sum of the
/// squared per-channel differences. Always in `[0, 3 * 255 * 255]`.
pub open spec fn rgb_distance_sq(a: Rgb, b: Rgb) -> int {
    (a.r - b.r) * (a.r - b.r) + (a.g - b.g) * (a.g - b.g) + (a.b - b.b) * (a.b - b.b)
}

/// The colour space in which distances between colours are measured.
///
/// Only spaces with an implemented metric are listed; every variant can be
/// passed to [`EuclideanDistance::distance_sq`].
#[derive(Clone, Copy, PartialEq, Eq, Structural, Debug)]
pub enum ColourSpace {
    RGB,
}

/// Distance as measured by a colour space.
pub trait EuclideanDistance {
    /// The metric, as a mathematical function.
    spec fn spec_distance_sq(&self, c1: Rgb, c2: Rgb) -> int;

    /// Squared distance between `c1` and `c2`.
    fn distance_sq(&self, c1: Rgb, c2: Rgb) -> (d: u32)
        ensures
            d == self.spec_distance_sq(c1, c2),
    ;
}

impl EuclideanDistance for ColourSpace {
    /// The metric of this colour space: squared Euclidean distance over the
    /// channels, interpreted per the space.
    open spec fn spec_distance_sq(&self, c1: Rgb, c2: Rgb) -> int {
        rgb_distance_sq(c1, c2)
    }

    /// Squared distance between `c1` and `c2` in this colour space.
    fn distance_sq(&self, c1: Rgb, c2: Rgb) -> (d: u32)
        ensures
            d == self.spec_distance_sq(c1, c2),
    {
        match self {
            ColourSpace::RGB => {
                let dr: i32 = c1.r as i32 - c2.r as i32;
                let dg: i32 = c1.g as i32 - c2.g as i32;
                let db: i32 = c1.b as i32 - c2.b as i32;
                proof {
                    assert(0 <= dr * dr <= 65025) by (nonlinear_arith)
                        requires
                            -255 <= dr <= 255,
                    ;
                    assert(0 <= dg * dg <= 65025) by (nonlinear_arith)
                        requires
                            -255 <= dg <= 255,
                    ;
                    assert(0 <= db * db <= 65025) by (nonlinear_arith)
                        requires
                            -255 <= db <= 255,
                    ;
                }
                (dr * dr + dg * dg + db * db) as u32
            },
        }
    }
}

/// The metric is symmetric in its two arguments.
pub proof fn lemma_distance_sq_symmetric(space: ColourSpace, a: Rgb, b: Rgb)
    ensures
        space.spec_distance_sq(a, b) == space.spec_distance_sq(b, a),
{
    let dr = a.r - b.r;
    let dg = a.g - b.g;
    let db = a.b - b.b;
    assert(dr * dr == (0 - dr) * (0 - dr)) by (nonlinear_arith);
    assert(dg * dg == (0 - dg) * (0 - dg)) by (nonlinear_arith);
    assert(db * db == (0 - db) * (0 - db)) by (nonlinear_arith);
}

/// The metric is non-negative, and zero exactly on equal colours.
pub proof fn lemma_distance_sq_zero_iff_eq(space: ColourSpace, a: Rgb, b: Rgb)
    ensures
        space.spec_distance_sq(a, b) >= 0,
        space.spec_distance_sq(a, b) == 0 <==> a == b,
{
    let dr = a.r - b.r;
    let dg = a.g - b.g;
    let db = a.b - b.b;
    assert(dr * dr >= 0 && dg * dg >= 0 && db * db >= 0) by (nonlinear_arith);
    assert(dr * dr == 0 <==> dr == 0) by (nonlinear_arith);
    assert(dg * dg == 0 <==> dg == 0) by (nonlinear_arith);
    assert(db * db == 0 <==> db == 0) by (nonlinear_arith);
}

} // verus!
