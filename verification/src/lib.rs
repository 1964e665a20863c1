//! Verified core of a singing-voice synthesiser.
//!
//! A score of notes is rendered against a voicebank whose samples have been
//! analysed into per-frame pitch, spectral and aperiodicity features.  The
//! modules here cover the note-to-timeline compositor, the per-note time-axis
//! warp, pitch-curve reconstruction, crossfade envelope geometry and the
//! global limiter.  All quantities are integers: times are microseconds,
//! signal values are fixed-point with [`FX_ONE`] as 1.0; the floating-point
//! collaborators (vocoder resynthesis, audio containers, transcendental
//! curves) stay outside the library and exchange fixed-point buffers with it.

use vstd::prelude::*;

pub mod compose;
pub mod envelope;
pub mod error;
pub mod features;
pub mod flags;
pub mod interp;
pub mod oto;
pub mod pitchcurve;
pub mod render;
pub mod score;
pub mod strmap;
pub mod timemap;
pub mod text;
pub mod util;

verus! {

/// Output sample rate in Hz; every sample index in the library refers to it.
pub const SAMPLE_RATE: u32 = 44100;

/// Length of one analysis frame in microseconds (5 ms).
pub const FRAME_US: i64 = 5000;

/// Fixed-point unit: this value stands for 1.0.
pub const FX_ONE: i64 = 0x100000;

/// Largest time (in microseconds) the library accepts; keeps every
/// intermediate product inside `i64`/`u128` ranges.
pub const MAX_TIME_US: i64 = 0x10000000000;

/// Largest fixed-point magnitude the interpolation and mixing stages accept.
pub const FX_VAL_LIMIT: i64 = 0x10000000000;

/// Converts a nonnegative microsecond position to a sample index at
/// [`SAMPLE_RATE`], rounding to the nearest sample (ties away from zero).
pub open spec fn spec_us_to_samples(us: int) -> int {
    if us >= 0 {
        (us * 441 + 5000) / 10000
    } else {
        -((-us * 441 + 5000) / 10000)
    }
}

/// Microseconds to samples, rounded to nearest, ties away from zero.
pub fn us_to_samples(us: i64) -> (r: i64)
    requires
        -4 * MAX_TIME_US <= us <= 4 * MAX_TIME_US,
    ensures
        r == spec_us_to_samples(us as int),
{
    if us >= 0 {
        (((us as u64) * 441 + 5000) / 10000) as i64
    } else {
        let m = (-us) as u64;
        -(((m * 441 + 5000) / 10000) as i64)
    }
}

} // verus!
