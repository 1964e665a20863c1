//! Pitch-curve reconstruction: sparse bend breakpoints are anchored at the
//! note's start and end, then resampled onto the uniform frame grid by
//! bracketing search and linear interpolation, clamped to the nearest
//! endpoint outside the breakpoint range.

use vstd::prelude::*;
use crate::score::PitchPoint;
use crate::util::{lerp_fx, tdiv};

verus! {

/// Breakpoints sorted by offset with bounded fields.
pub open spec fn points_wf(pb: Seq<PitchPoint>) -> bool {
    &&& forall|i: int|
        0 <= i < pb.len() ==> {
            &&& -crate::MAX_TIME_US <= (#[trigger] pb[i]).offset <= crate::MAX_TIME_US
            &&& -crate::FX_VAL_LIMIT <= pb[i].value <= crate::FX_VAL_LIMIT
        }
    &&& forall|i: int, j: int|
        0 <= i <= j < pb.len() ==> (#[trigger] pb[i]).offset <= (#[trigger] pb[j]).offset
}

/// The anchored breakpoint list: a zero anchor is inserted when the list is
/// empty or starts after the note's beginning, and a zero anchor is appended
/// when it ends before the note's duration.
pub open spec fn spec_normalized(pb: Seq<PitchPoint>, duration_us: i64) -> Seq<PitchPoint> {
    let a = if pb.len() == 0 || pb[0].offset > 0 {
        seq![PitchPoint { offset: 0, value: 0 }] + pb
    } else {
        pb
    };
    if a.last().offset < duration_us {
        a.push(PitchPoint { offset: duration_us, value: 0 })
    } else {
        a
    }
}

/// Anchors a note's breakpoints, exactly as [`spec_normalized`] states.
pub fn normalize_pitchbend(pb: &Vec<PitchPoint>, duration_us: i64) -> (r: Vec<PitchPoint>)
    requires
        points_wf(pb@),
        0 <= duration_us <= crate::MAX_TIME_US,
    ensures
        r@ == spec_normalized(pb@, duration_us),
        points_wf(r@),
        r@.len() >= 1,
{
    let mut out: Vec<PitchPoint> = Vec::new();
    if pb.len() == 0 || pb[0].offset > 0 {
        out.push(PitchPoint { offset: 0, value: 0 });
    }
    let mut i: usize = 0;
    let ghost prefix: Seq<PitchPoint> = out@;
    while i < pb.len()
        invariant
            i <= pb@.len(),
            out@ =~= prefix + pb@.take(i as int),
        decreases pb@.len() - i,
    {
        out.push(pb[i]);
        i += 1;
    }
    proof {
        assert(pb@.take(pb@.len() as int) =~= pb@);
    }
    if out[out.len() - 1].offset < duration_us {
        out.push(PitchPoint { offset: duration_us, value: 0 });
    }
    proof {
        assert(out@ =~= spec_normalized(pb@, duration_us));
    }
    out
}

/// First index whose offset is at or after `t`, or the length if none.
pub open spec fn first_at_or_after(pts: Seq<PitchPoint>, t: int, i: int) -> int
    decreases pts.len() - i,
{
    if i < 0 || i >= pts.len() {
        pts.len() as int
    } else if pts[i].offset >= t {
        i
    } else {
        first_at_or_after(pts, t, i + 1)
    }
}

/// The curve's value at time `t`: the bracketing breakpoints interpolated
/// linearly, the nearest endpoint value outside the covered range.
pub open spec fn spec_curve_value(pts: Seq<PitchPoint>, t: int) -> int {
    let j = first_at_or_after(pts, t, 0);
    if j >= pts.len() {
        pts.last().value as int
    } else if pts[j].offset == t || j == 0 {
        pts[j].value as int
    } else {
        let t1 = pts[j - 1].offset as int;
        let t2 = pts[j].offset as int;
        pts[j - 1].value + tdiv((pts[j].value - pts[j - 1].value) * (t - t1), t2 - t1)
    }
}

proof fn lemma_first_at_or_after_at(pts: Seq<PitchPoint>, t: int, i: int, d: int)
    requires
        0 <= i <= d <= pts.len(),
        d < pts.len() ==> pts[d].offset >= t,
        forall|k: int| i <= k < d ==> (#[trigger] pts[k]).offset < t,
    ensures
        first_at_or_after(pts, t, i) == if d < pts.len() {
            d
        } else {
            pts.len() as int
        },
    decreases d - i,
{
    if i < d {
        lemma_first_at_or_after_at(pts, t, i + 1, d);
    }
}

/// Evaluates the anchored curve at time `t`, exactly as [`spec_curve_value`]
/// states; the result stays between the neighbouring breakpoint values.
pub fn curve_value(pts: &Vec<PitchPoint>, t: i64) -> (v: i64)
    requires
        points_wf(pts@),
        pts@.len() >= 1,
        -2 * crate::MAX_TIME_US <= t <= 2 * crate::MAX_TIME_US,
    ensures
        v == spec_curve_value(pts@, t as int),
        -crate::FX_VAL_LIMIT <= v <= crate::FX_VAL_LIMIT,
{
    let n = pts.len();
    let mut j: usize = 0;
    while j < n && pts[j].offset < t
        invariant
            j <= n,
            n == pts@.len(),
            forall|k: int| 0 <= k < j ==> (#[trigger] pts@[k]).offset < t,
        decreases n - j,
    {
        j += 1;
    }
    proof {
        lemma_first_at_or_after_at(pts@, t as int, 0, j as int);
    }
    if j == n {
        pts[n - 1].value
    } else if pts[j].offset == t || j == 0 {
        pts[j].value
    } else {
        let p1 = pts[j - 1];
        let p2 = pts[j];
        lerp_fx(p1.value, p2.value, t - p1.offset, p2.offset - p1.offset)
    }
}

/// Frames covering a span: one per started frame period.
pub open spec fn spec_grid_frames(duration_us: int) -> int {
    (duration_us + crate::FRAME_US - 1) / (crate::FRAME_US as int)
}

/// Resamples a note's bend onto the uniform frame grid: one value per frame,
/// the anchored curve evaluated at the frame's start.
pub fn pitch_grid(pb: &Vec<PitchPoint>, duration_us: i64) -> (g: Vec<i64>)
    requires
        points_wf(pb@),
        0 <= duration_us <= crate::MAX_TIME_US,
    ensures
        g@.len() == spec_grid_frames(duration_us as int),
        forall|i: int|
            0 <= i < g@.len() ==> #[trigger] g@[i] == spec_curve_value(
                spec_normalized(pb@, duration_us),
                i * crate::FRAME_US,
            ),
        forall|i: int|
            0 <= i < g@.len() ==> -crate::FX_VAL_LIMIT <= #[trigger] g@[i] <= crate::FX_VAL_LIMIT,
{
    let pts = normalize_pitchbend(pb, duration_us);
    let frames_i64 = (duration_us + crate::FRAME_US - 1) / crate::FRAME_US;
    let frames: usize = frames_i64 as usize;
    let mut g: Vec<i64> = Vec::new();
    let mut i: usize = 0;
    while i < frames
        invariant
            i <= frames,
            frames == spec_grid_frames(duration_us as int),
            0 <= duration_us <= crate::MAX_TIME_US,
            pts@ == spec_normalized(pb@, duration_us),
            points_wf(pts@),
            pts@.len() >= 1,
            g@.len() == i,
            forall|k: int|
                0 <= k < i ==> #[trigger] g@[k] == spec_curve_value(
                    spec_normalized(pb@, duration_us),
                    k * crate::FRAME_US,
                ),
            forall|k: int|
                0 <= k < i ==> -crate::FX_VAL_LIMIT <= #[trigger] g@[k] <= crate::FX_VAL_LIMIT,
        decreases frames - i,
    {
        proof {
            assert((i as int) * crate::FRAME_US < duration_us + crate::FRAME_US) by (nonlinear_arith)
                requires
                    (i as int) < spec_grid_frames(duration_us as int),
                    spec_grid_frames(duration_us as int) == (duration_us + crate::FRAME_US - 1) / (
                    crate::FRAME_US as int),
                    duration_us >= 0,
            ;
        }
        let t = (i as i64) * crate::FRAME_US;
        let v = curve_value(&pts, t);
        g.push(v);
        i += 1;
    }
    g
}

/// Anchoring an empty bend list yields zero anchors at the start and the
/// duration, and the whole uniform grid reads zero: a note without bend data
/// follows its plain pitch.
pub proof fn lemma_empty_pitchbend_grid(duration_us: i64, t: int)
    requires
        0 < duration_us,
    ensures
        spec_normalized(Seq::<PitchPoint>::empty(), duration_us) =~= seq![
            PitchPoint { offset: 0, value: 0 },
            PitchPoint { offset: duration_us, value: 0 },
        ],
        spec_curve_value(spec_normalized(Seq::<PitchPoint>::empty(), duration_us), t) == 0,
{
    let pts = spec_normalized(Seq::<PitchPoint>::empty(), duration_us);
    assert(pts =~= seq![
        PitchPoint { offset: 0, value: 0 },
        PitchPoint { offset: duration_us, value: 0 },
    ]);
    let j = first_at_or_after(pts, t, 0);
    lemma_first_at_or_after_props(pts, t, 0);
    if !(j >= pts.len() || pts[j].offset == t || j == 0) {
        let t1 = pts[j - 1].offset as int;
        let t2 = pts[j].offset as int;
        crate::util::lemma_mul_div_bound(0, t - t1, t2 - t1);
    }
}

proof fn lemma_first_at_or_after_props(pts: Seq<PitchPoint>, t: int, i: int)
    requires
        0 <= i <= pts.len(),
    ensures
        i <= first_at_or_after(pts, t, i) <= pts.len(),
        first_at_or_after(pts, t, i) < pts.len() ==> pts[first_at_or_after(pts, t, i)].offset >= t,
        forall|k: int| i <= k < first_at_or_after(pts, t, i) ==> (#[trigger] pts[k]).offset < t,
    decreases pts.len() - i,
{
    if i < pts.len() && pts[i].offset < t {
        lemma_first_at_or_after_props(pts, t, i + 1);
    }
}

} // verus!
