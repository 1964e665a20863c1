//! Per-note rendering: the time warp sampled once per output frame, the
//! feature streams resampled along it, the pitch contour assembled from the
//! bend grid, and — once the vocoder has turned the plan into harmonic and
//! aperiodic sample buffers — the mix and the crossfade envelopes.

use vstd::prelude::*;
use crate::error::SynthError;
use crate::envelope::{apply_crossfade_envelopes, curve_wf, spec_faded};
use crate::features::WorldFeatures;
use crate::flags::spec_flags;
use crate::interp::interpolate_first_axis;
use crate::oto::{OtoEntry, OtoSpecEntry, entry_bounded};
use crate::pitchcurve::{pitch_grid, spec_grid_frames, spec_curve_value, spec_normalized};
use crate::score::{Note, note_wf, VOLUME_FX_LIMIT};
use crate::timemap::{map_time_us, spec_map_time_us, smax, smin};
use crate::util::{mul_div_trunc, mul_fx, spec_abs, tdiv, lemma_mul_div_bound};

verus! {

/// Largest harmonic or aperiodic input sample the mixer accepts.
pub const AMP_IN_LIMIT: i64 = 0x40000000;

/// Largest sample the renderer emits.
pub const SAMPLE_LIMIT: i64 = 0x40000000000;

/// Everything one note's render needs besides the vocoder's output: mapped
/// source positions (fixed-point frames) and resampled feature streams per
/// output frame, the pitch contour as a fixed-point MIDI value per frame with
/// its voicing mask, and the mixing and envelope parameters.
pub struct NotePlan {
    pub t_render: Vec<i64>,
    pub voiced: Vec<bool>,
    pub midi: Vec<i64>,
    pub mgc: Vec<Vec<i64>>,
    pub bap: Vec<Vec<i64>>,
    pub volume: i64,
    pub harmonic_mix: i64,
    pub fade_in_us: i64,
    pub fade_out_us: i64,
    pub preutterance_us: i64,
    pub duration_us: i64,
    pub is_initial: bool,
}

/// Frames covering a render span, one per [`crate::FRAME_US`], rounded.
pub open spec fn spec_total_frames(span_us: int) -> int {
    smax(0, (span_us + 2500) / (crate::FRAME_US as int))
}

/// Source frame index a mapped position falls in, clamped into range.
pub open spec fn spec_frame_index(pos: int, n: int) -> int {
    smin(pos / (crate::FX_ONE as int), n - 1)
}

/// The scalar ranges every plan observes.
pub open spec fn plan_wf(p: NotePlan) -> bool {
    &&& p.voiced@.len() == p.t_render@.len()
    &&& p.midi@.len() == p.t_render@.len()
    &&& p.mgc@.len() == p.t_render@.len()
    &&& p.bap@.len() == p.t_render@.len()
    &&& forall|i: int|
        0 <= i < p.midi@.len() ==> -2 * crate::FX_VAL_LIMIT <= #[trigger] p.midi@[i] <= 2
            * crate::FX_VAL_LIMIT
    &&& 0 <= p.volume <= VOLUME_FX_LIMIT
    &&& 0 <= p.harmonic_mix <= 2 * crate::FX_ONE
    &&& -crate::MAX_TIME_US <= p.fade_in_us <= crate::MAX_TIME_US
    &&& -crate::MAX_TIME_US <= p.fade_out_us <= crate::MAX_TIME_US
    &&& -crate::MAX_TIME_US <= p.preutterance_us <= crate::MAX_TIME_US
    &&& 0 <= p.duration_us <= crate::MAX_TIME_US
}

/// What a prepared plan says of its note, timing entry and features.
#[verifier::opaque]
pub open spec fn plan_matches(
    p: NotePlan,
    note: Note,
    e: OtoSpecEntry,
    w: WorldFeatures,
    prev_overlap_us: int,
    has_next: bool,
) -> bool {
    let total = spec_total_frames(note.duration + e.overlap);
    let gframes = spec_grid_frames(note.duration as int);
    let fl = spec_flags(note.flags@)->Some_0;
    let flen_us = w.spec_len_us();
    &&& p.t_render@.len() == (if total == 0 || gframes == 0 {
        0int
    } else {
        total
    })
    &&& forall|i: int|
        0 <= i < p.t_render@.len() ==> #[trigger] p.t_render@[i] == tdiv(
            spec_map_time_us(e, flen_us, note.duration as int, i * crate::FRAME_US)
                * crate::FX_ONE,
            crate::FRAME_US as int,
        )
    &&& forall|i: int|
        0 <= i < p.voiced@.len() ==> #[trigger] p.voiced@[i] == (w.f0@[spec_frame_index(
            p.t_render@[i] as int,
            w.f0@.len() as int,
        )] != 0)
    &&& forall|i: int|
        0 <= i < p.midi@.len() ==> #[trigger] p.midi@[i] == spec_curve_value(
            spec_normalized(note.pitchbend@, note.duration),
            smin(i, gframes - 1) * crate::FRAME_US,
        ) + note.pitch * crate::FX_ONE + tdiv(fl.pitch_offset * crate::FX_ONE, 100)
    &&& forall|i: int|
        0 <= i < p.mgc@.len() && (p.t_render@[i] as int) % (crate::FX_ONE as int) == 0
            ==> #[trigger] p.mgc@[i]@ == w.mgc@[(p.t_render@[i] as int) / (crate::FX_ONE as int)]@
    &&& forall|i: int|
        0 <= i < p.bap@.len() && (p.t_render@[i] as int) % (crate::FX_ONE as int) == 0
            ==> #[trigger] p.bap@[i]@ == w.bap@[(p.t_render@[i] as int) / (crate::FX_ONE as int)]@
    &&& p.volume == note.volume
    &&& p.harmonic_mix == tdiv((100 - fl.breathiness) * crate::FX_ONE, 50)
    &&& p.fade_in_us == (if prev_overlap_us > 0 {
        prev_overlap_us
    } else {
        0int
    })
    &&& p.fade_out_us == (if has_next {
        e.overlap
    } else {
        0int
    })
    &&& p.preutterance_us == e.preutterance
    &&& p.duration_us == note.duration
    &&& p.is_initial == (note.alias@.len() >= 1 && note.alias@[0] == '-')
}

/// Prepares one note against its timing entry and features: the time warp,
/// the resampled streams and the mixing parameters.  An unreadable flag
/// string is the one per-note failure raised here; a degenerate span (no
/// frames) prepares an empty plan.
#[verifier::rlimit(100)]
pub fn prepare_note(
    note: &Note,
    entry: &OtoEntry,
    feats: &WorldFeatures,
    prev_overlap_us: i64,
    has_next: bool,
) -> (r: Result<NotePlan, SynthError>)
    requires
        note_wf(*note),
        entry_bounded(entry.deep_view()),
        feats.wf(),
        -crate::MAX_TIME_US <= prev_overlap_us <= crate::MAX_TIME_US,
    ensures
        match r {
            Ok(p) => spec_flags(note.flags@) is Some && plan_matches(
                p,
                *note,
                entry.deep_view(),
                *feats,
                prev_overlap_us as int,
                has_next,
            ) && plan_wf(p),
            Err(e) => e == SynthError::BadFlags && spec_flags(note.flags@) is None,
        },
{
    proof {
        reveal(plan_matches);
    }
    let fl = match crate::flags::parse_flags(note.flags.as_str()) {
        Ok(fl) => fl,
        Err(_) => {
            return Err(SynthError::BadFlags);
        },
    };
    let is_initial = crate::render::alias_starts_with_dash(&note.alias);
    let mix = mul_div_trunc(100 - fl.breathiness, crate::FX_ONE, 50);
    proof {
        lemma_mul_div_bound(2 * crate::FX_ONE as int, 100 - fl.breathiness as int, 100);
        assert((100 - fl.breathiness as int) * crate::FX_ONE as int == (2 * crate::FX_ONE as int)
            * (100 - fl.breathiness as int) / 2 && tdiv(
            (100 - fl.breathiness as int) * crate::FX_ONE as int,
            50,
        ) >= 0) by (nonlinear_arith)
            requires
                0 <= fl.breathiness <= 100,
        ;
        vstd::arithmetic::div_mod::lemma_div_pos_is_pos(
            (100 - fl.breathiness as int) * crate::FX_ONE as int,
            50,
        );
    }
    let pitch_term = mul_div_trunc(fl.pitch_offset, crate::FX_ONE, 100);
    proof {
        lemma_mul_div_bound(fl.pitch_offset as int, crate::FX_ONE as int, crate::FX_ONE as int);
        crate::util::lemma_tdiv_abs(fl.pitch_offset as int * crate::FX_ONE as int, 100);
        vstd::arithmetic::div_mod::lemma_div_is_ordered(
            spec_abs(fl.pitch_offset as int * crate::FX_ONE as int),
            spec_abs(fl.pitch_offset as int) * crate::FX_ONE as int,
            100,
        );
        assert(spec_abs(fl.pitch_offset as int * crate::FX_ONE as int) == spec_abs(
            fl.pitch_offset as int,
        ) * crate::FX_ONE as int && spec_abs(fl.pitch_offset as int) * crate::FX_ONE as int
            <= 1000000 * crate::FX_ONE as int) by (nonlinear_arith)
            requires
                spec_abs(fl.pitch_offset as int) <= 1000000,
        ;
        vstd::arithmetic::div_mod::lemma_div_is_ordered(
            spec_abs(fl.pitch_offset as int) * crate::FX_ONE as int,
            1000000 * crate::FX_ONE as int,
            100,
        );
    }
    let grid = pitch_grid(&note.pitchbend, note.duration);
    let total_us = note.duration + entry.overlap;
    let total: usize = if total_us < 0 {
        proof {
            let x = total_us as int + 2500;
            vstd::arithmetic::div_mod::lemma_fundamental_div_mod(x, crate::FRAME_US as int);
            vstd::arithmetic::div_mod::lemma_mod_bound(x, crate::FRAME_US as int);
            let q = x / (crate::FRAME_US as int);
            assert(q < 1) by (nonlinear_arith)
                requires
                    x == (crate::FRAME_US as int) * q + x % (crate::FRAME_US as int),
                    0 <= x % (crate::FRAME_US as int) < crate::FRAME_US as int,
                    x < crate::FRAME_US as int,
                    (crate::FRAME_US as int) == 5000,
            ;
        }
        0
    } else {
        (((total_us as u64) + 2500) / 5000) as usize
    };
    proof {
        assert(total == spec_total_frames(note.duration + entry.deep_view().overlap));
        vstd::arithmetic::div_mod::lemma_fundamental_div_mod(
            total_us as int + 2500,
            crate::FRAME_US as int,
        );
        vstd::arithmetic::div_mod::lemma_mod_bound(total_us as int + 2500, crate::FRAME_US as int);
    }
    let base = NotePlan {
        t_render: Vec::new(),
        voiced: Vec::new(),
        midi: Vec::new(),
        mgc: Vec::new(),
        bap: Vec::new(),
        volume: note.volume,
        harmonic_mix: mix,
        fade_in_us: if prev_overlap_us > 0 {
            prev_overlap_us
        } else {
            0
        },
        fade_out_us: if has_next {
            entry.overlap
        } else {
            0
        },
        preutterance_us: entry.preutterance,
        duration_us: note.duration,
        is_initial,
    };
    if total == 0 || grid.len() == 0 {
        return Ok(base);
    }
    let n_frames = feats.f0.len();
    let feat_len_us = (n_frames as i64) * crate::FRAME_US;
    let mut t_render: Vec<i64> = Vec::new();
    let mut voiced: Vec<bool> = Vec::new();
    let mut midi: Vec<i64> = Vec::new();
    let glen = grid.len();
    let pitch_fx = (note.pitch as i64) * crate::FX_ONE;
    let mut i: usize = 0;
    while i < total
        invariant
            i <= total,
            total == spec_total_frames(note.duration + entry.deep_view().overlap),
            total * crate::FRAME_US <= note.duration + entry.deep_view().overlap + 2500,
            note_wf(*note),
            entry_bounded(entry.deep_view()),
            feats.wf(),
            n_frames == feats.f0@.len(),
            feat_len_us == n_frames * crate::FRAME_US,
            glen == grid@.len() >= 1,
            glen == spec_grid_frames(note.duration as int),
            forall|k: int|
                0 <= k < glen ==> #[trigger] grid@[k] == spec_curve_value(
                    spec_normalized(note.pitchbend@, note.duration),
                    k * crate::FRAME_US,
                ),
            forall|k: int|
                0 <= k < glen ==> -crate::FX_VAL_LIMIT <= #[trigger] grid@[k]
                    <= crate::FX_VAL_LIMIT,
            pitch_fx == note.pitch * crate::FX_ONE,
            spec_abs(pitch_term as int) <= 10000 * crate::FX_ONE,
            pitch_term == tdiv(
                (spec_flags(note.flags@)->Some_0).pitch_offset * crate::FX_ONE,
                100,
            ),
            t_render@.len() == i,
            voiced@.len() == i,
            midi@.len() == i,
            forall|k: int|
                0 <= k < i ==> #[trigger] t_render@[k] == tdiv(
                    spec_map_time_us(
                        entry.deep_view(),
                        feats.spec_len_us(),
                        note.duration as int,
                        k * crate::FRAME_US,
                    ) * crate::FX_ONE,
                    crate::FRAME_US as int,
                ),
            forall|k: int|
                0 <= k < i ==> 0 <= #[trigger] t_render@[k] <= (n_frames - 1) * crate::FX_ONE,
            forall|k: int|
                0 <= k < i ==> #[trigger] voiced@[k] == (feats.f0@[spec_frame_index(
                    t_render@[k] as int,
                    n_frames as int,
                )] != 0),
            forall|k: int|
                0 <= k < i ==> #[trigger] midi@[k] == spec_curve_value(
                    spec_normalized(note.pitchbend@, note.duration),
                    smin(k, glen - 1) * crate::FRAME_US,
                ) + note.pitch * crate::FX_ONE + pitch_term,
            forall|k: int|
                0 <= k < i ==> -2 * crate::FX_VAL_LIMIT <= #[trigger] midi@[k] <= 2
                    * crate::FX_VAL_LIMIT,
        decreases total - i,
    {
        proof {
            assert(i as int * crate::FRAME_US < total * crate::FRAME_US && 0 <= i as int
                * crate::FRAME_US) by (nonlinear_arith)
                requires
                    (0 <= i as int) && ((i as int) < (total as int)),
                    (crate::FRAME_US as int) == 5000,
            ;
        }
        let t_us = (i as i64) * crate::FRAME_US;
        let s_us = map_time_us(entry, feat_len_us, note.duration, t_us);
        proof {
            vstd::arithmetic::div_mod::lemma_div_pos_is_pos(
                s_us as int * crate::FX_ONE as int,
                crate::FRAME_US as int,
            );
            assert(s_us as int * crate::FX_ONE as int >= 0) by (nonlinear_arith)
                requires
                    s_us >= 0,
            ;
            assert(s_us as int * crate::FX_ONE as int <= ((n_frames - 1) * crate::FRAME_US)
                * crate::FX_ONE as int) by (nonlinear_arith)
                requires
                    0 <= s_us as int <= (n_frames - 1) * crate::FRAME_US,
            ;
            vstd::arithmetic::div_mod::lemma_div_is_ordered(
                s_us as int * crate::FX_ONE as int,
                ((n_frames - 1) * crate::FRAME_US) * crate::FX_ONE as int,
                crate::FRAME_US as int,
            );
            assert(((n_frames - 1) * crate::FRAME_US) * crate::FX_ONE as int == ((n_frames - 1)
                * crate::FX_ONE) * crate::FRAME_US as int) by (nonlinear_arith);
            crate::util::lemma_tdiv_exact_multiple(
                (n_frames - 1) * crate::FX_ONE,
                crate::FRAME_US as int,
            );
        }
        let pos = mul_div_trunc(s_us, crate::FX_ONE, crate::FRAME_US);
        t_render.push(pos);
        let mut idx: usize = ((pos as u64) / (crate::FX_ONE as u64)) as usize;
        proof {
            vstd::arithmetic::div_mod::lemma_div_is_ordered(
                pos as int,
                (n_frames - 1) * crate::FX_ONE as int,
                crate::FX_ONE as int,
            );
            crate::util::lemma_tdiv_exact_multiple(n_frames - 1, crate::FX_ONE as int);
            assert((n_frames - 1) * crate::FX_ONE as int == crate::FX_ONE as int * (n_frames - 1))
                by (nonlinear_arith);
        }
        if idx > n_frames - 1 {
            idx = n_frames - 1;
        }
        voiced.push(feats.f0[idx] != 0);
        let gi = if i < glen {
            i
        } else {
            glen - 1
        };
        let m = grid[gi] + pitch_fx + pitch_term;
        midi.push(m);
        i += 1;
    }
    let mgc_r = interpolate_first_axis(&feats.mgc, &t_render);
    let bap_r = interpolate_first_axis(&feats.bap, &t_render);
    proof {
        assert forall|k: int|
            0 <= k < mgc_r@.len() && (t_render@[k] as int) % (crate::FX_ONE as int)
                == 0 implies #[trigger] mgc_r@[k]@ == feats.mgc@[(t_render@[k] as int) / (
        crate::FX_ONE as int)]@ by {
            assert(mgc_r@[k]@ =~= feats.mgc@[(t_render@[k] as int) / (crate::FX_ONE as int)]@);
        }
        assert forall|k: int|
            0 <= k < bap_r@.len() && (t_render@[k] as int) % (crate::FX_ONE as int)
                == 0 implies #[trigger] bap_r@[k]@ == feats.bap@[(t_render@[k] as int) / (
        crate::FX_ONE as int)]@ by {
            assert(bap_r@[k]@ =~= feats.bap@[(t_render@[k] as int) / (crate::FX_ONE as int)]@);
        }
    }
    Ok(
        NotePlan {
            t_render,
            voiced,
            midi,
            mgc: mgc_r,
            bap: bap_r,
            volume: base.volume,
            harmonic_mix: base.harmonic_mix,
            fade_in_us: base.fade_in_us,
            fade_out_us: base.fade_out_us,
            preutterance_us: base.preutterance_us,
            duration_us: base.duration_us,
            is_initial: base.is_initial,
        },
    )
}

/// Samples of the fade-in ramp a render of `total` samples uses: the
/// previous note's overlap, absent on phrase-initial samples, never longer
/// than the buffer.
pub open spec fn spec_fade_in_len(p: NotePlan, total: int) -> int {
    if p.fade_in_us > 0 && !p.is_initial {
        smin(crate::spec_us_to_samples(p.fade_in_us as int), total)
    } else {
        0
    }
}

/// Sample where the fade-out begins: the note's nominal body end (its
/// pre-utterance plus duration), clipped into the buffer.
pub open spec fn spec_fade_out_start(p: NotePlan, total: int) -> int {
    smax(0, smin(crate::spec_us_to_samples(p.preutterance_us + p.duration_us), total))
}

/// Samples of the fade-out ramp: the note's own overlap, clipped to what the
/// buffer holds past the fade-out start.
pub open spec fn spec_fade_out_len(p: NotePlan, total: int) -> int {
    if p.fade_out_us > 0 {
        smin(total - spec_fade_out_start(p, total), crate::spec_us_to_samples(p.fade_out_us as int))
    } else {
        0
    }
}

/// Resolves a plan's envelope geometry against a rendered buffer of
/// `total_smp` samples: fade-in length, fade-out start and fade-out length.
pub fn envelope_geometry(plan: &NotePlan, total_smp: usize) -> (r: (usize, usize, usize))
    requires
        plan_wf(*plan),
        total_smp <= 0x1000000000000,
    ensures
        r.0 == spec_fade_in_len(*plan, total_smp as int),
        r.1 == spec_fade_out_start(*plan, total_smp as int),
        r.2 == spec_fade_out_len(*plan, total_smp as int),
        r.0 <= total_smp,
        r.1 + r.2 <= total_smp,
{
    let total = total_smp as i64;
    let fade_in: i64 = if plan.fade_in_us > 0 && !plan.is_initial {
        let s = crate::us_to_samples(plan.fade_in_us);
        if s < total {
            s
        } else {
            total
        }
    } else {
        0
    };
    let body_end = crate::us_to_samples(plan.preutterance_us + plan.duration_us);
    let start: i64 = if body_end < 0 {
        0
    } else if body_end > total {
        total
    } else {
        body_end
    };
    let fade_out: i64 = if plan.fade_out_us > 0 {
        let s = crate::us_to_samples(plan.fade_out_us);
        if total - start < s {
            total - start
        } else {
            s
        }
    } else {
        0
    };
    proof {
        if plan.fade_in_us > 0 && !plan.is_initial {
            vstd::arithmetic::div_mod::lemma_div_pos_is_pos(
                plan.fade_in_us as int * 441 + 5000,
                10000,
            );
        }
        if plan.fade_out_us > 0 {
            vstd::arithmetic::div_mod::lemma_div_pos_is_pos(
                plan.fade_out_us as int * 441 + 5000,
                10000,
            );
        }
    }
    (fade_in as usize, start as usize, fade_out as usize)
}

/// One mixed sample before the envelopes: harmonic weighted by the
/// breathiness mix, plus the aperiodic part, scaled by the note's volume.
pub open spec fn spec_mix_sample(h: i64, a: i64, mix: i64, vol: i64) -> int {
    tdiv((tdiv(h * mix, crate::FX_ONE as int) + a) * vol, crate::FX_ONE as int)
}

/// The whole mixed buffer before the envelopes.
pub open spec fn spec_mixed(h: Seq<i64>, a: Seq<i64>, mix: i64, vol: i64) -> Seq<i64> {
    Seq::new(h.len(), |i: int| spec_mix_sample(h[i], a[i], mix, vol) as i64)
}

/// Turns the vocoder's harmonic and aperiodic buffers into the note's final
/// samples: the mix and volume of [`spec_mix_sample`] at every sample, then
/// the two crossfade ramps of [`spec_faded`].  The ramps must span exactly
/// the plan's envelope geometry for this buffer length.
pub fn finish_note(
    plan: &NotePlan,
    harmonic: &Vec<i64>,
    aperiodic: &Vec<i64>,
    tin: &Vec<i64>,
    tout: &Vec<i64>,
) -> (out: Vec<i64>)
    requires
        plan_wf(*plan),
        harmonic@.len() == aperiodic@.len() <= 0x1000000000000,
        forall|i: int|
            0 <= i < harmonic@.len() ==> -AMP_IN_LIMIT <= #[trigger] harmonic@[i] <= AMP_IN_LIMIT,
        forall|i: int|
            0 <= i < aperiodic@.len() ==> -AMP_IN_LIMIT <= #[trigger] aperiodic@[i]
                <= AMP_IN_LIMIT,
        curve_wf(tin@),
        curve_wf(tout@),
        tin@.len() == spec_fade_in_len(*plan, harmonic@.len() as int),
        tout@.len() == spec_fade_out_len(*plan, harmonic@.len() as int),
    ensures
        out@.len() == harmonic@.len(),
        forall|i: int|
            0 <= i < out@.len() ==> #[trigger] out@[i] == spec_faded(
                spec_mixed(harmonic@, aperiodic@, plan.harmonic_mix, plan.volume),
                tin@,
                spec_fade_out_start(*plan, harmonic@.len() as int),
                tout@,
                i,
            ),
        forall|i: int|
            0 <= i < out@.len() ==> -SAMPLE_LIMIT <= #[trigger] out@[i] <= SAMPLE_LIMIT,
{
    let n = harmonic.len();
    let mut mixed: Vec<i64> = Vec::new();
    let mut i: usize = 0;
    while i < n
        invariant
            i <= n,
            n == harmonic@.len() == aperiodic@.len(),
            plan_wf(*plan),
            forall|k: int|
                0 <= k < n ==> -AMP_IN_LIMIT <= #[trigger] harmonic@[k] <= AMP_IN_LIMIT,
            forall|k: int|
                0 <= k < n ==> -AMP_IN_LIMIT <= #[trigger] aperiodic@[k] <= AMP_IN_LIMIT,
            mixed@.len() == i,
            forall|k: int|
                0 <= k < i ==> #[trigger] mixed@[k] == spec_mix_sample(
                    harmonic@[k],
                    aperiodic@[k],
                    plan.harmonic_mix,
                    plan.volume,
                ),
            forall|k: int|
                0 <= k < i ==> -SAMPLE_LIMIT <= #[trigger] mixed@[k] <= SAMPLE_LIMIT,
        decreases n - i,
    {
        let s1 = mul_fx(harmonic[i], plan.harmonic_mix);
        proof {
            crate::util::lemma_tdiv_abs(
                harmonic@[i as int] as int * plan.harmonic_mix as int,
                crate::FX_ONE as int,
            );
            assert(spec_abs(harmonic@[i as int] as int * plan.harmonic_mix as int) <= AMP_IN_LIMIT
                as int * (2 * crate::FX_ONE as int)) by (nonlinear_arith)
                requires
                    spec_abs(harmonic@[i as int] as int) <= AMP_IN_LIMIT as int,
                    0 <= plan.harmonic_mix <= 2 * crate::FX_ONE,
            ;
            vstd::arithmetic::div_mod::lemma_div_is_ordered(
                spec_abs(harmonic@[i as int] as int * plan.harmonic_mix as int),
                AMP_IN_LIMIT as int * (2 * crate::FX_ONE as int),
                crate::FX_ONE as int,
            );
            assert(AMP_IN_LIMIT as int * (2 * crate::FX_ONE as int) / (crate::FX_ONE as int) <= 2
                * AMP_IN_LIMIT as int);
        }
        let s2 = s1 + aperiodic[i];
        proof {
            crate::util::lemma_tdiv_abs(s2 as int * plan.volume as int, crate::FX_ONE as int);
            assert(spec_abs(s2 as int * plan.volume as int) <= (3 * AMP_IN_LIMIT as int) * (
            VOLUME_FX_LIMIT as int)) by (nonlinear_arith)
                requires
                    spec_abs(s2 as int) <= 3 * AMP_IN_LIMIT as int,
                    0 <= plan.volume <= VOLUME_FX_LIMIT,
            ;
            vstd::arithmetic::div_mod::lemma_div_is_ordered(
                spec_abs(s2 as int * plan.volume as int),
                (3 * AMP_IN_LIMIT as int) * (VOLUME_FX_LIMIT as int),
                crate::FX_ONE as int,
            );
            assert((3 * AMP_IN_LIMIT as int) * (VOLUME_FX_LIMIT as int) / (crate::FX_ONE as int)
                <= SAMPLE_LIMIT as int);
        }
        let v = mul_fx(s2, plan.volume);
        mixed.push(v);
        i += 1;
    }
    let (_fin, out_start, _fout) = envelope_geometry(plan, n);
    apply_crossfade_envelopes(&mut mixed, tin, out_start, tout);
    mixed
}

/// Whether the alias carries the leading marker of a phrase-initial sample.
pub fn alias_starts_with_dash(alias: &String) -> (r: bool)
    ensures
        r == (alias@.len() >= 1 && alias@[0] == '-'),
{
    let s = alias.as_str();
    if s.unicode_len() >= 1 {
        s.get_char(0) == '-'
    } else {
        false
    }
}

} // verus!
