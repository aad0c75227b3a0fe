//! The engine's view of the wall clock.
//!
//! `think` keeps starting rollouts until a time budget has elapsed. The
//! clock readings themselves are opaque: the trusted specifications
//! below promise nothing about them, and the loop around them is
//! verified to behave for every reading.

use vstd::prelude::*;

use std::time::{Duration, Instant};

verus! {

/// A monotonic clock reading, opaque to verification.
#[verifier::external_type_specification]
#[verifier::external_body]
pub struct ExInstant(Instant);

/// Relies on `std::time::Instant::now`: a reading of the monotonic
/// clock. The result depends on the time of the call, so nothing is
/// stated about it.
pub assume_specification[ Instant::now ]() -> (r: Instant);

/// Relies on `std::time::Instant::elapsed`: the time passed since the
/// reading was taken. The result depends on the time of the call, so
/// nothing is stated about it.
pub assume_specification[ Instant::elapsed ](t: &Instant) -> (r: Duration);

/// Relies on `std::time::Duration::as_millis`: the duration in whole
/// milliseconds. The duration itself is opaque, so nothing is stated
/// about the value.
pub assume_specification[ Duration::as_millis ](d: &Duration) -> (r: u128);

/// Milliseconds elapsed since the clock reading `start`, saturated to
/// 64 bits.
pub fn millis_since(start: &Instant) -> (r: u64) {
    let d = start.elapsed();
    let ms = d.as_millis();
    if ms > 0xffff_ffff_ffff_ffffu128 {
        0xffff_ffff_ffff_ffff
    } else {
        ms as u64
    }
}

} // verus!
