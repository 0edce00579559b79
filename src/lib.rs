//! A scalar Kalman filter without a control input.
//!
//! The filter keeps an estimate `x` of a hidden scalar and its variance `P`,
//! moves them forward with the process model `x ← A·x`, `P ← A·P·A + Q`, and
//! corrects them with each observation `z` through the gain `K = P·H / S`,
//! where `S = H·P·H + R`. An update whose `S` is smaller than 1e-8 in
//! magnitude fails and changes nothing.
//!
//! Numbers are decimal fixed-point values with eighteen digits after the
//! point (`fixed::Fixed`): each operation is exact integer arithmetic followed
//! by a single rounding down to the 1e-18 grid, so each step lands within
//! 1e-18 of the exact recurrence. Two things differ from binary floating
//! point: values saturate at a magnitude of 1e18 instead of growing to
//! infinity, and there is no NaN or infinity to propagate. In exchange every
//! step is fully specified and cannot panic.
//!
//! - `fixed`: the number type and its arithmetic.
//! - `kalman`: the filter, its model, and batch runs (`kfilter`).
//! - `laws`: properties proved of the model over many steps.
pub mod fixed;
pub mod kalman;
pub mod laws;
