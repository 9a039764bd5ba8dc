//! Human-readable representations of durations and byte sizes.
//!
//! The `duration` module converts between strings such as `"1h2m3.4s"` and a
//! signed nanosecond count, and back.  The `bytes` module renders byte counts
//! as SI (`"42MB"`) or IEC (`"40MiB"`) sizes and parses such strings.

mod binary64;
pub mod bytes;
mod digits;
pub mod duration;
pub mod round_trip;
