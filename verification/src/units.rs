//! Measurement units used throughout WordprocessingML.

use vstd::prelude::*;

verus! {

/// A length in twentieths of a point.
#[derive(Debug, Clone, Copy, PartialEq, Eq, Structural)]
pub struct Twips(pub i32);

/// A font size in half-points.
#[derive(Debug, Clone, Copy, PartialEq, Eq, Structural)]
pub struct HalfPoint(pub u32);

/// A length in English Metric Units (914400 per inch).
#[derive(Debug, Clone, Copy, PartialEq, Eq, Structural)]
pub struct Emu(pub i64);

} // verus!
