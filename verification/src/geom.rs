//! Integer plane geometry: points/sizes, rectangles, and the row
//! quantization used to order blocks.

use vstd::prelude::*;
use crate::constants::{DIM_LIMIT, ROW_QUANTIZATION_HEIGHT};

verus! {

/// A point or extent on the canvas, in integer canvas units.
#[derive(Clone, Copy, PartialEq, Eq, Structural, Debug)]
pub struct Vec2 {
    pub x: i64,
    pub y: i64,
}

impl Vec2 {
    pub fn new(x: i64, y: i64) -> (r: Vec2)
        ensures
            r == (Vec2 { x, y }),
    {
        Vec2 { x, y }
    }
}

/// An axis-aligned rectangle given by its two corners, `min` at the top
/// left and `max` at the bottom right.
#[derive(Clone, Copy, PartialEq, Eq, Structural, Debug)]
pub struct Rect {
    pub min: Vec2,
    pub max: Vec2,
}

impl Rect {
    /// Whether `p` lies inside the rectangle, edges included.
    pub open spec fn spec_contains(&self, p: Vec2) -> bool {
        &&& self.min.x <= p.x <= self.max.x
        &&& self.min.y <= p.y <= self.max.y
    }

    /// Whether `p` lies inside the rectangle, edges included.
    pub fn contains(&self, p: Vec2) -> (r: bool)
        ensures
            r == self.spec_contains(p),
    {
        self.min.x <= p.x && p.x <= self.max.x && self.min.y <= p.y && p.y <= self.max.y
    }
}

/// The quantized row index of a vertical coordinate: `y` divided by
/// `ROW_QUANTIZATION_HEIGHT`, truncated toward zero.
pub open spec fn spec_row_of(y: int) -> int {
    if y >= 0 {
        y / (ROW_QUANTIZATION_HEIGHT as int)
    } else {
        -((-y) / (ROW_QUANTIZATION_HEIGHT as int))
    }
}

/// The quantized row index of a vertical coordinate.
pub fn row_of(y: i64) -> (r: i64)
    requires
        i64::MIN < y,
    ensures
        r == spec_row_of(y as int),
{
    if y >= 0 {
        ((y as u64) / (ROW_QUANTIZATION_HEIGHT as u64)) as i64
    } else {
        let m: u64 = ((-y) as u64) / (ROW_QUANTIZATION_HEIGHT as u64);
        -(m as i64)
    }
}

/// The larger of two coordinates.
pub fn max64(a: i64, b: i64) -> (r: i64)
    ensures
        r == if a >= b { a as int } else { b as int },
{
    if a >= b { a } else { b }
}

/// The smaller of two coordinates.
pub fn min64(a: i64, b: i64) -> (r: i64)
    ensures
        r == if a <= b { a as int } else { b as int },
{
    if a <= b { a } else { b }
}

/// The larger of two integers.
pub open spec fn spec_max(a: int, b: int) -> int {
    if a >= b {
        a
    } else {
        b
    }
}

/// The magnitude of an integer.
pub open spec fn spec_abs(v: int) -> int {
    if v >= 0 {
        v
    } else {
        -v
    }
}

/// Half of a value, truncated toward zero.
pub open spec fn spec_half_trunc(v: int) -> int {
    if v >= 0 {
        v / 2
    } else {
        -((-v) / 2)
    }
}

/// Half of a value, truncated toward zero.
pub fn half_trunc(v: i64) -> (r: i64)
    requires
        i64::MIN < v,
    ensures
        r == spec_half_trunc(v as int),
{
    if v >= 0 {
        ((v as u64) / 2) as i64
    } else {
        let m: u64 = ((-v) as u64) / 2;
        -(m as i64)
    }
}

/// The magnitude of a (bounded) wide intermediate value.
pub fn abs128(v: i128) -> (r: u128)
    requires
        i128::MIN < v,
    ensures
        r == spec_abs(v as int),
{
    if v >= 0 {
        v as u128
    } else {
        (-v) as u128
    }
}

/// The product of two non-negative values is non-negative and bounded
/// by the product of their bounds.
pub proof fn lemma_mul_bounds(a: int, b: int, ca: int, cb: int)
    by (nonlinear_arith)
    requires
        0 <= a <= ca,
        0 <= b <= cb,
    ensures
        0 <= a * b <= ca * cb,
{
}

/// A wide intermediate value clamped into the representable dimension
/// range `0 ..= DIM_LIMIT`.
pub open spec fn spec_clamp_dim(v: int) -> int {
    if v < 0 {
        0
    } else if v > DIM_LIMIT as int {
        DIM_LIMIT as int
    } else {
        v
    }
}

/// A wide intermediate value clamped into the representable dimension
/// range `0 ..= DIM_LIMIT`.
pub fn clamp_dim(v: i128) -> (r: i64)
    ensures
        r == spec_clamp_dim(v as int),
{
    if v < 0 {
        0
    } else if v > DIM_LIMIT as i128 {
        DIM_LIMIT
    } else {
        v as i64
    }
}

} // verus!
