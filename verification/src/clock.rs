//! The monotonic clock by which enrollment tokens expire, and the random
//! source from which they are drawn.

use std::time::{Duration, Instant};
use vstd::prelude::*;

verus! {

/// A point in time as `std::time::Instant` measures it.
#[verifier::external_type_specification]
#[verifier::external_body]
pub struct ExInstant(Instant);

/// `std::time::Instant::now`: the current instant. Nothing is promised of
/// the value, which depends on the time of the call.
#[verifier::external_body]
pub(crate) fn instant_now() -> Instant {
    Instant::now()
}

/// `std::time::Instant::elapsed`: the time passed since `origin`. Nothing
/// is promised of the value, which depends on the time of the call.
#[verifier::external_body]
pub(crate) fn elapsed_since(origin: &Instant) -> Duration {
    origin.elapsed()
}

/// `std::time::Duration::as_nanos`: the whole nanoseconds of `d`. The
/// value depends on `d`, which is opaque here, so nothing is promised of it.
#[verifier::external_body]
pub(crate) fn whole_nanos(d: &Duration) -> u128 {
    d.as_nanos()
}

/// `rand::rng().random()`: 32 bytes from the thread-local generator that
/// rand seeds from the operating system. Nothing is promised of the bytes,
/// which are drawn by chance.
#[verifier::external_body]
pub(crate) fn random_bytes() -> [u8; 32] {
    rand::Rng::random(&mut rand::rng())
}

/// Nanoseconds since `origin`, saturating at `u64::MAX` (after some 584 years).
pub(crate) fn nanos_since(origin: &Instant) -> u64 {
    let d = elapsed_since(origin);
    let ns = whole_nanos(&d);
    if ns > 0xffff_ffff_ffff_ffffu128 {
        0xffff_ffff_ffff_ffffu64
    } else {
        ns as u64
    }
}

} // verus!
