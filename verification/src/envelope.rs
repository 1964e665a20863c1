//! Crossfade envelopes.  A fade curve is a gain table covering one ramp; the
//! fade-in reads it forward and the fade-out reads it mirrored, so that at
//! every offset within an overlap the two sides of a splice take gains of
//! complementary ramp positions — the geometry behind the constant-power
//! crossfade.

use vstd::prelude::*;
use crate::util::{mul_div_trunc, spec_abs, tdiv, lemma_mul_div_bound};

verus! {

/// A gain ramp: one fixed-point gain per sample of the fade, each within
/// `[0, 1]`.
pub open spec fn curve_wf(g: Seq<i64>) -> bool {
    forall|i: int| 0 <= i < g.len() ==> 0 <= #[trigger] g[i] <= crate::FX_ONE
}

/// Gain the fade-in applies at offset `i` of its ramp.
pub open spec fn spec_fade_in_gain(g: Seq<i64>, i: int) -> int {
    g[i] as int
}

/// Gain the fade-out applies at offset `i` of its ramp: the ramp read
/// mirrored, falling from full gain to none.
pub open spec fn spec_fade_out_gain(g: Seq<i64>, i: int) -> int {
    g[g.len() - 1 - i] as int
}

/// Crossfade power alignment: within an overlap of two adjacent notes the
/// outgoing note's gain at offset `i` is the ramp value at the position
/// complementary to the incoming note's, so the two ramp positions always
/// sum to the full ramp.  With the raised-cosine ramp `sin(pi/2 * k/(n-1))`
/// the two gains are the sine and cosine of one angle, whose squares sum
/// to one — the floating-point identity itself lives with the callers that
/// build the ramp.
pub proof fn lemma_crossfade_power_alignment(g: Seq<i64>, i: int)
    requires
        0 <= i < g.len(),
    ensures
        spec_fade_out_gain(g, i) == spec_fade_in_gain(g, g.len() - 1 - i),
        (g.len() - 1 - i) + i == g.len() - 1,
{
}

/// One sample after both envelopes: the fade-in scales the first samples of
/// the buffer, the fade-out scales `eff_out` samples starting at `out_start`
/// by the mirrored ramp; elsewhere the sample passes unchanged.
pub open spec fn spec_faded(
    s: Seq<i64>,
    tin: Seq<i64>,
    out_start: int,
    tout: Seq<i64>,
    i: int,
) -> int {
    let mid = if i < tin.len() {
        tdiv(s[i] * tin[i], crate::FX_ONE as int)
    } else {
        s[i] as int
    };
    if out_start <= i < out_start + tout.len() {
        tdiv(mid * spec_fade_out_gain(tout, i - out_start), crate::FX_ONE as int)
    } else {
        mid
    }
}

/// Applies the fade-in and fade-out ramps in place, exactly as
/// [`spec_faded`] states; no sample grows in magnitude.
pub fn apply_crossfade_envelopes(
    pcm: &mut Vec<i64>,
    tin: &Vec<i64>,
    out_start: usize,
    tout: &Vec<i64>,
)
    requires
        curve_wf(tin@),
        curve_wf(tout@),
        tin@.len() <= old(pcm)@.len(),
        out_start + tout@.len() <= old(pcm)@.len(),
        forall|i: int|
            0 <= i < old(pcm)@.len() ==> -0x40000000000 <= #[trigger] old(pcm)@[i]
                <= 0x40000000000,
    ensures
        final(pcm)@.len() == old(pcm)@.len(),
        forall|i: int|
            0 <= i < final(pcm)@.len() ==> #[trigger] final(pcm)@[i] == spec_faded(
                old(pcm)@,
                tin@,
                out_start as int,
                tout@,
                i,
            ),
        forall|i: int|
            0 <= i < final(pcm)@.len() ==> spec_abs(#[trigger] final(pcm)@[i] as int) <= spec_abs(
                old(pcm)@[i] as int,
            ),
{
    let ghost orig = pcm@;
    let total = pcm.len();
    let mut i: usize = 0;
    let n_in = tin.len();
    while i < n_in
        invariant
            i <= n_in,
            n_in == tin@.len() <= pcm@.len(),
            pcm@.len() == orig.len(),
            pcm@.len() == total,
            curve_wf(tin@),
            forall|k: int|
                0 <= k < orig.len() ==> -0x40000000000 <= #[trigger] orig[k] <= 0x40000000000,
            forall|k: int|
                i <= k < orig.len() ==> #[trigger] pcm@[k] == orig[k],
            forall|k: int|
                0 <= k < i ==> #[trigger] pcm@[k] == tdiv(
                    orig[k] * tin@[k],
                    crate::FX_ONE as int,
                ),
            forall|k: int|
                0 <= k < i ==> spec_abs(#[trigger] pcm@[k] as int) <= spec_abs(orig[k] as int),
        decreases n_in - i,
    {
        proof {
            lemma_mul_div_bound(orig[i as int] as int, tin@[i as int] as int, crate::FX_ONE as int);
        }
        let v = mul_div_trunc(pcm[i], tin[i], crate::FX_ONE);
        pcm.set(i, v);
        i += 1;
    }
    let ghost mid = pcm@;
    let n_out = tout.len();
    let mut j: usize = 0;
    while j < n_out
        invariant
            j <= n_out,
            n_out == tout@.len(),
            out_start + n_out <= pcm@.len(),
            pcm@.len() == mid.len() == orig.len(),
            pcm@.len() == total,
            curve_wf(tout@),
            forall|k: int|
                0 <= k < mid.len() ==> spec_abs(#[trigger] mid[k] as int) <= 0x40000000000,
            forall|k: int|
                0 <= k < pcm@.len() && !(out_start <= k < out_start + j) ==> #[trigger] pcm@[k]
                    == mid[k],
            forall|k: int|
                out_start <= k < out_start + j ==> #[trigger] pcm@[k] == tdiv(
                    mid[k] * spec_fade_out_gain(tout@, k - out_start),
                    crate::FX_ONE as int,
                ),
            forall|k: int|
                out_start <= k < out_start + j ==> spec_abs(#[trigger] pcm@[k] as int) <= spec_abs(
                    mid[k] as int,
                ),
        decreases n_out - j,
    {
        let idx = out_start + j;
        proof {
            lemma_mul_div_bound(
                mid[idx as int] as int,
                tout@[n_out - 1 - j as int] as int,
                crate::FX_ONE as int,
            );
        }
        let v = mul_div_trunc(pcm[idx], tout[n_out - 1 - j], crate::FX_ONE);
        pcm.set(idx, v);
        j += 1;
    }
}

} // verus!
