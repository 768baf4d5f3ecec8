//! A personal body-weight journal: an in-memory log of timestamped weight
//! samples backed by an append-only CSV file.
//!
//! Weights are held as whole tenths of a kilogram, timestamps as plain
//! calendar fields, so every rule of the log engine is stated and checked
//! over plain integers.

use vstd::prelude::*;

pub mod clock;
pub mod codec;
pub mod modes;
pub mod timestamp;
pub mod weight;
pub mod weightlog;

verus! {

/// Largest weight value the engine accepts from a caller, in tenths of a
/// kilogram (exclusive): weights must satisfy `0 < w < 1000 kg`.
pub const MAX_WEIGHT_TENTHS: u32 = 10000;

/// A weight entered by a caller is valid when strictly between 0 and 1000 kg.
pub open spec fn valid_weight(tenths: u32) -> bool {
    0 < tenths < MAX_WEIGHT_TENTHS
}

/// Range check applied by the input collaborator before a weight reaches
/// the log.
pub fn weight_in_range(tenths: u32) -> (r: bool)
    ensures
        r == valid_weight(tenths),
{
    0 < tenths && tenths < MAX_WEIGHT_TENTHS
}

} // verus!
