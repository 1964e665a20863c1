//! The time-axis warp: output time is split into a pre-utterance part mapped
//! 1:1 from the sample's offset, a stretch part remapped linearly onto the
//! fixed consonant interval, and a tail mapped 1:1 up to the cutoff point;
//! the result is clamped into the analysed range.  All times in microseconds.

use vstd::prelude::*;
use crate::oto::{OtoEntry, OtoSpecEntry, entry_bounded};
use crate::util::{mul_div_trunc, spec_abs, tdiv};

verus! {

pub open spec fn smax(a: int, b: int) -> int {
    if a >= b {
        a
    } else {
        b
    }
}

pub open spec fn smin(a: int, b: int) -> int {
    if a <= b {
        a
    } else {
        b
    }
}

/// Length of the output stretch segment: what the note's duration leaves
/// after the fixed consonant part.
pub open spec fn spec_stretch_out_us(e: OtoSpecEntry, duration_us: int) -> int {
    smax(0, duration_us - e.consonant)
}

/// The cutoff point in source time: absolute, or from the sample's end when
/// negative, never before the consonant boundary nor past the sample.
pub open spec fn spec_cutoff_us(e: OtoSpecEntry, feat_len_us: int) -> int {
    let c = if e.cutoff >= 0 {
        e.cutoff
    } else {
        feat_len_us + e.cutoff
    };
    smax(e.offset + e.consonant, smin(c, feat_len_us))
}

/// The unclamped source time for output time `t_us`.
pub open spec fn spec_map_raw_us(
    e: OtoSpecEntry,
    feat_len_us: int,
    duration_us: int,
    t_us: int,
) -> int {
    let start = e.offset + e.preutterance;
    let end = e.offset + e.consonant;
    let stretch_out = spec_stretch_out_us(e, duration_us);
    let part_len = smax(1000, end - start);
    if t_us < e.preutterance {
        e.offset + t_us
    } else if t_us < e.preutterance + stretch_out {
        start + tdiv((t_us - e.preutterance) * part_len, stretch_out)
    } else {
        smin(end + (t_us - (e.preutterance + stretch_out)), spec_cutoff_us(e, feat_len_us))
    }
}

/// The mapped source time: the raw warp clamped into the analysed range,
/// leaving one frame of headroom at the end.
pub open spec fn spec_map_time_us(
    e: OtoSpecEntry,
    feat_len_us: int,
    duration_us: int,
    t_us: int,
) -> int {
    smax(0, smin(spec_map_raw_us(e, feat_len_us, duration_us, t_us), feat_len_us - crate::FRAME_US))
}

/// Maps one output time onto the source timeline.
pub fn map_time_us(e: &OtoEntry, feat_len_us: i64, duration_us: i64, t_us: i64) -> (r: i64)
    requires
        entry_bounded(e.deep_view()),
        crate::FRAME_US <= feat_len_us <= crate::MAX_TIME_US,
        0 <= duration_us <= crate::MAX_TIME_US,
        0 <= t_us <= 4 * crate::MAX_TIME_US,
    ensures
        r == spec_map_time_us(e.deep_view(), feat_len_us as int, duration_us as int, t_us as int),
        0 <= r <= feat_len_us - crate::FRAME_US,
{
    let start = e.offset + e.preutterance;
    let end = e.offset + e.consonant;
    let stretch_out = if duration_us - e.consonant >= 0 {
        duration_us - e.consonant
    } else {
        0
    };
    let part_len = if end - start >= 1000 {
        end - start
    } else {
        1000
    };
    let cut_abs = if e.cutoff >= 0 {
        e.cutoff
    } else {
        feat_len_us + e.cutoff
    };
    let cut = if cut_abs < feat_len_us {
        if cut_abs >= end {
            cut_abs
        } else {
            end
        }
    } else {
        if feat_len_us >= end {
            feat_len_us
        } else {
            end
        }
    };
    let raw: i64;
    if t_us < e.preutterance {
        raw = e.offset + t_us;
    } else if t_us < e.preutterance + stretch_out {
        let x = t_us - e.preutterance;
        proof {
            let xi = x as int;
            let pi = part_len as int;
            let osi = stretch_out as int;
            assert(spec_abs(xi * pi) == xi * pi && xi * pi <= osi * pi) by (nonlinear_arith)
                requires
                    0 <= xi <= osi && pi >= 0,
            ;
            vstd::arithmetic::div_mod::lemma_div_is_ordered(xi * pi, osi * pi, osi);
            assert(osi * pi == pi * osi) by (nonlinear_arith);
            vstd::arithmetic::div_mod::lemma_div_multiples_vanish(pi, osi);
        }
        raw = start + mul_div_trunc(x, part_len, stretch_out);
    } else {
        let tail = end + (t_us - (e.preutterance + stretch_out));
        raw = if tail <= cut {
            tail
        } else {
            cut
        };
    }
    let hi = feat_len_us - crate::FRAME_US;
    if raw < 0 {
        0
    } else if raw > hi {
        hi
    } else {
        raw
    }
}

/// Time-mapping monotonicity: along the output timeline the mapped source
/// time never decreases, for every timing entry whose pre-utterance is
/// nonnegative and ends at least a millisecond before the consonant boundary.
pub proof fn lemma_time_map_monotonic(
    e: OtoSpecEntry,
    feat_len_us: int,
    duration_us: int,
    t1: int,
    t2: int,
)
    requires
        entry_bounded(e),
        0 <= e.preutterance,
        e.preutterance + 1000 <= e.consonant,
        0 <= t1 <= t2,
    ensures
        spec_map_time_us(e, feat_len_us, duration_us, t1) <= spec_map_time_us(
            e,
            feat_len_us,
            duration_us,
            t2,
        ),
{
    let start = e.offset + e.preutterance;
    let end = e.offset + e.consonant;
    let stretch_out = spec_stretch_out_us(e, duration_us);
    let part_len = smax(1000, end - start);
    let cut = spec_cutoff_us(e, feat_len_us);
    assert(part_len == end - start);
    let r1 = spec_map_raw_us(e, feat_len_us, duration_us, t1);
    let r2 = spec_map_raw_us(e, feat_len_us, duration_us, t2);
    assert(r1 <= r2) by {
        if t1 < e.preutterance {
            if t2 < e.preutterance {
            } else if t2 < e.preutterance + stretch_out {
                lemma_stretch_seg_bounds(e, duration_us, t2);
            } else {
            }
        } else if t1 < e.preutterance + stretch_out {
            lemma_stretch_seg_bounds(e, duration_us, t1);
            if t2 < e.preutterance + stretch_out {
                let x1 = t1 - e.preutterance;
                let x2 = t2 - e.preutterance;
                assert(x1 * part_len <= x2 * part_len) by (nonlinear_arith)
                    requires
                        0 <= x1 <= x2 && part_len >= 0,
                ;
                vstd::arithmetic::div_mod::lemma_div_is_ordered(
                    x1 * part_len,
                    x2 * part_len,
                    stretch_out,
                );
            } else {
                // the stretch segment stays strictly below the consonant
                // boundary, where the tail begins
            }
        } else {
        }
    }
}

/// Within the stretch segment the warp stays in `[start, end)`.
proof fn lemma_stretch_seg_bounds(e: OtoSpecEntry, duration_us: int, t: int)
    requires
        e.preutterance + 1000 <= e.consonant,
        e.preutterance <= t,
        t < e.preutterance + spec_stretch_out_us(e, duration_us),
    ensures
        ({
            let start = e.offset + e.preutterance;
            let part_len = smax(1000, e.offset + e.consonant - start);
            let os = spec_stretch_out_us(e, duration_us);
            let v = start + tdiv((t - e.preutterance) * part_len, os);
            start <= v < e.offset + e.consonant
        }),
{
    let start = e.offset + e.preutterance;
    let end = e.offset + e.consonant;
    let part_len = smax(1000, end - start);
    let os = spec_stretch_out_us(e, duration_us);
    let x = t - e.preutterance;
    assert(0 <= x * part_len && x * part_len < os * part_len) by (nonlinear_arith)
        requires
            0 <= x < os && part_len >= 1000,
    ;
    vstd::arithmetic::div_mod::lemma_div_pos_is_pos(x * part_len, os);
    assert(os * part_len == part_len * os) by (nonlinear_arith);
    vstd::arithmetic::div_mod::lemma_multiply_divide_lt(x * part_len, os, part_len);
}

} // verus!
