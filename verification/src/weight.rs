//! A single weight sample.

use vstd::prelude::*;
use crate::timestamp::Timestamp;
use crate::clock::hours_since_parts;

verus! {

/// Oldest age, in whole hours, that a sample ever reports; the clock is
/// clamped into `0 ..= MAX_AGE_HOURS` so age arithmetic cannot overflow.
pub const MAX_AGE_HOURS: i64 = 1000000000;

/// Largest raw weight the parser ever produces, in tenths of a kilogram:
/// up to eight integral digits and one fractional digit.
pub const MAX_RAW_TENTHS: u32 = 999999999;

/// An immutable weight measurement: a weight in whole tenths of a kilogram
/// and the local time it was taken.
#[derive(Clone, Copy, PartialEq, Eq, Structural, Debug)]
pub struct WeightT {
    /// Weight in tenths of a kilogram.
    pub kilo: u32,
    pub time: Timestamp,
}

impl WeightT {
    /// A sample is well formed when its weight fits the persisted format
    /// and its timestamp names a real local time.
    pub open spec fn wf(self) -> bool {
        self.kilo <= MAX_RAW_TENTHS && self.time.wf()
    }

    /// Build a sample; with no timestamp given, the current local time.
    pub fn new(kilo: u32, time: Option<Timestamp>) -> (r: WeightT)
        ensures
            r.kilo == kilo,
            time is Some ==> r.time == time->0,
            time is None ==> r.time.wf(),
    {
        match time {
            Some(t) => WeightT { kilo, time: t },
            None => WeightT { kilo, time: crate::clock::now_local() },
        }
    }

    /// Whole hours elapsed since this sample was taken, clamped into
    /// `0 ..= MAX_AGE_HOURS`; the caller divides by 24 for days.
    pub fn age(&self) -> (r: i64)
        ensures
            0 <= r <= MAX_AGE_HOURS,
    {
        match hours_since_parts(
            self.time.year as i32,
            self.time.month,
            self.time.day,
            self.time.hour,
            self.time.minute,
        ) {
            None => 0,
            Some(h) => if h < 0 {
                0
            } else if h > MAX_AGE_HOURS {
                MAX_AGE_HOURS
            } else {
                h
            },
        }
    }

    /// Body-mass index in hundredths: weight over squared height, truncated
    /// (not rounded) to two decimal places.
    pub fn bmi(&self, height_cm: u32) -> (r: u64)
        requires
            height_cm >= 1,
        ensures
            r as nat == bmi_hundredths(self.kilo as nat, height_cm as nat),
    {
        proof {
            assert(1 <= (height_cm as nat) * (height_cm as nat) <= 0xffffffff * 0xffffffff)
                by (nonlinear_arith)
                requires
                    1 <= height_cm <= 0xffffffffu32,
            ;
        }
        let h2: u64 = (height_cm as u64) * (height_cm as u64);
        ((self.kilo as u64) * 100000) / h2
    }
}

/// `weight / (height/100)^2` with weight in tenths of a kilogram and height
/// in centimetres, scaled to hundredths of a BMI point and truncated.
pub open spec fn bmi_hundredths(kilo_tenths: nat, height_cm: nat) -> nat
    recommends
        height_cm >= 1,
{
    (kilo_tenths * 100000) / (height_cm * height_cm)
}

} // verus!
