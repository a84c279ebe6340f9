//! Points in time and lengths of time, in nanoseconds.

use vstd::prelude::*;

verus! {

/// A point in time: nanoseconds since the clock began.
pub type Instant = u64;

/// A length of time in nanoseconds.
pub type Duration = u128;

/// The longest length of time: 64 bits of seconds, less a nanosecond.
pub const MAX_DURATION: Duration = 18_446_744_073_709_551_615_999_999_999;

/// One millisecond.
pub const MILLISECOND: Duration = 1_000_000;

} // verus!
