//! The size of the picture.

use crate::single::{round_trip, through_single};
use vstd::prelude::*;

verus! {

/// Width and height of a picture, counted in pixels.
#[derive(Clone, Copy, Debug)]
pub struct Image {
    pub width: i32,
    pub height: i32,
}

/// The quotient of `a` by `b` with its fraction dropped, for `b` other than zero.
pub open spec fn truncated_quotient(a: int, b: int) -> int {
    if a >= 0 {
        a / b
    } else {
        -((-a) / b)
    }
}

/// The truncated quotient is no larger in magnitude than the number that is divided.
pub proof fn lemma_truncated_quotient_bounds(a: int, b: int)
    by (nonlinear_arith)
    requires
        b != 0,
    ensures
        a >= 0 ==> -a <= truncated_quotient(a, b) <= a,
        a < 0 ==> a <= truncated_quotient(a, b) <= -a,
        a < 0 && b != -1 ==> truncated_quotient(a, b) < -a,
{
}

impl Default for Image {
    /// A picture of 640 by 480 pixels.
    fn default() -> (image: Self)
        ensures
            image.width == 640,
            image.height == 480,
    {
        Self::new(640, 480)
    }
}

impl Image {
    /// A picture of the given width and height.
    pub fn new(width: i32, height: i32) -> (image: Self)
        ensures
            image.width == width,
            image.height == height,
    {
        Self { width, height }
    }

    /// A square picture of the given width. The height is the width stored as a
    /// single-precision number and read back, so it is the width itself up to two to the
    /// power 24, and the nearest single-precision number beyond.
    pub fn with_width(width: i32) -> (image: Self)
        ensures
            image.width == width,
            image.height == through_single(width as int),
    {
        Self { width, height: round_trip(width) }
    }

    /// A picture of the given width, and of the given height where that is at least one: a
    /// picture has one row at least.
    pub fn clamped(width: i32, height: i32) -> (image: Self)
        ensures
            image.width == width,
            image.height == (if height < 1 {
                1
            } else {
                height
            }),
            image.height >= 1,
    {
        if height < 1 {
            Self { width, height: 1 }
        } else {
            Self { width, height }
        }
    }

    /// How many times the height goes into the width, the fraction dropped.
    pub fn aspect(&self) -> (q: i32)
        requires
            self.height != 0,
            !(self.width == i32::MIN && self.height == -1),
        ensures
            q == truncated_quotient(self.width as int, self.height as int),
    {
        proof {
            lemma_truncated_quotient_bounds(self.width as int, self.height as int);
        }
        self.width / self.height
    }
}

} // verus!
