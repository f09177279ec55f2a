//! Acoustic receiver localization by the method of images, in fixed-point
//! integer arithmetic.
//!
//! Lengths are whole micrometres, angles whole microradians, and the
//! matched-filter curve is held in parts of [`signal::PEAK`].

pub mod angled;
pub mod parallel;
pub mod score;
pub mod signal;
pub mod trig;
pub mod units;
