//! Pre-analysed timbre features of one voicebank sample: per-frame pitch,
//! its offset from the sample's base pitch, and coded spectral/aperiodicity
//! frames.  All values fixed-point; one frame covers [`crate::FRAME_US`].

use vstd::prelude::*;

verus! {

/// Features of one sample.  `f0` is the detected pitch per frame (fixed-point
/// Hz, 0 on unvoiced frames); `f0_off` its offset from `base_f0` in
/// fixed-point semitones, 0 wherever the frame is unvoiced; `mgc` and `bap`
/// the coded spectral and aperiodicity frames.
#[derive(Clone, Debug)]
pub struct WorldFeatures {
    pub base_f0: i64,
    pub f0: Vec<i64>,
    pub f0_off: Vec<i64>,
    pub mgc: Vec<Vec<i64>>,
    pub bap: Vec<Vec<i64>>,
}

impl WorldFeatures {
    /// Shape and range of a usable feature record: at least one frame, equal
    /// frame counts, rectangular grids, bounded values, nonnegative pitch,
    /// and no pitch offset on unvoiced frames.
    pub open spec fn wf(self) -> bool {
        &&& 1 <= self.f0@.len() <= 0x8000000
        &&& self.f0_off@.len() == self.f0@.len()
        &&& self.mgc@.len() == self.f0@.len()
        &&& self.bap@.len() == self.f0@.len()
        &&& 0 <= self.base_f0 <= crate::FX_VAL_LIMIT
        &&& forall|i: int| 0 <= i < self.f0@.len() ==> 0 <= #[trigger] self.f0@[i] <= crate::FX_VAL_LIMIT
        &&& forall|i: int|
            0 <= i < self.f0@.len() ==> -crate::FX_VAL_LIMIT <= #[trigger] self.f0_off@[i]
                <= crate::FX_VAL_LIMIT
        &&& forall|i: int| 0 <= i < self.f0@.len() && self.f0@[i] == 0 ==> self.f0_off@[i] == 0
        &&& forall|i: int| 0 <= i < self.mgc@.len() ==> (#[trigger] self.mgc@[i])@.len() == self.mgc@[0]@.len()
        &&& forall|i: int, j: int|
            0 <= i < self.mgc@.len() && 0 <= j < self.mgc@[i]@.len() ==> -crate::FX_VAL_LIMIT
                <= #[trigger] self.mgc@[i]@[j] <= crate::FX_VAL_LIMIT
        &&& forall|i: int| 0 <= i < self.bap@.len() ==> (#[trigger] self.bap@[i])@.len() == self.bap@[0]@.len()
        &&& forall|i: int, j: int|
            0 <= i < self.bap@.len() && 0 <= j < self.bap@[i]@.len() ==> -crate::FX_VAL_LIMIT
                <= #[trigger] self.bap@[i]@[j] <= crate::FX_VAL_LIMIT
    }

    /// Length of the analysed sample in microseconds.
    pub open spec fn spec_len_us(self) -> int {
        self.f0@.len() * crate::FRAME_US
    }

    /// Assembles a validated record.  `None` when shapes disagree or a value
    /// is out of range; offsets on unvoiced frames are zeroed, as the pitch
    /// offset of a frame without pitch means nothing.
    pub fn build(
        base_f0: i64,
        f0: Vec<i64>,
        f0_off: Vec<i64>,
        mgc: Vec<Vec<i64>>,
        bap: Vec<Vec<i64>>,
    ) -> (r: Option<WorldFeatures>)
        ensures
            r matches Some(w) ==> w.wf(),
    {
        let n = f0.len();
        if n == 0 || n > 0x8000000 {
            return None;
        }
        if f0_off.len() != n || mgc.len() != n || bap.len() != n {
            return None;
        }
        if !(0 <= base_f0 && base_f0 <= crate::FX_VAL_LIMIT) {
            return None;
        }
        let mut off2: Vec<i64> = Vec::new();
        let mut i: usize = 0;
        while i < n
            invariant
                i <= n,
                n == f0@.len(),
                f0_off@.len() == n,
                off2@.len() == i,
                forall|k: int| 0 <= k < i ==> 0 <= #[trigger] f0@[k] <= crate::FX_VAL_LIMIT,
                forall|k: int|
                    0 <= k < i ==> -crate::FX_VAL_LIMIT <= #[trigger] off2@[k]
                        <= crate::FX_VAL_LIMIT,
                forall|k: int| 0 <= k < i && f0@[k] == 0 ==> off2@[k] == 0,
            decreases n - i,
        {
            if !(0 <= f0[i] && f0[i] <= crate::FX_VAL_LIMIT) {
                return None;
            }
            if !(-crate::FX_VAL_LIMIT <= f0_off[i] && f0_off[i] <= crate::FX_VAL_LIMIT) {
                return None;
            }
            if f0[i] == 0 {
                off2.push(0);
            } else {
                off2.push(f0_off[i]);
            }
            i += 1;
        }
        let dim_m = mgc[0].len();
        let mut i2: usize = 0;
        while i2 < n
            invariant
                i2 <= n,
                n == mgc@.len(),
                dim_m == mgc@[0]@.len(),
                forall|k: int| 0 <= k < i2 ==> (#[trigger] mgc@[k])@.len() == dim_m,
                forall|k: int, j: int|
                    0 <= k < i2 && 0 <= j < mgc@[k]@.len() ==> -crate::FX_VAL_LIMIT
                        <= #[trigger] mgc@[k]@[j] <= crate::FX_VAL_LIMIT,
            decreases n - i2,
        {
            if mgc[i2].len() != dim_m {
                return None;
            }
            let mut j: usize = 0;
            while j < dim_m
                invariant
                    j <= dim_m,
                    i2 < n,
                    n == mgc@.len(),
                    mgc@[i2 as int]@.len() == dim_m,
                    forall|jj: int|
                        0 <= jj < j ==> -crate::FX_VAL_LIMIT <= #[trigger] mgc@[i2 as int]@[jj]
                            <= crate::FX_VAL_LIMIT,
                decreases dim_m - j,
            {
                if !(-crate::FX_VAL_LIMIT <= mgc[i2][j] && mgc[i2][j] <= crate::FX_VAL_LIMIT) {
                    return None;
                }
                j += 1;
            }
            i2 += 1;
        }
        let dim_b = bap[0].len();
        let mut i3: usize = 0;
        while i3 < n
            invariant
                i3 <= n,
                n == bap@.len(),
                dim_b == bap@[0]@.len(),
                forall|k: int| 0 <= k < i3 ==> (#[trigger] bap@[k])@.len() == dim_b,
                forall|k: int, j: int|
                    0 <= k < i3 && 0 <= j < bap@[k]@.len() ==> -crate::FX_VAL_LIMIT
                        <= #[trigger] bap@[k]@[j] <= crate::FX_VAL_LIMIT,
            decreases n - i3,
        {
            if bap[i3].len() != dim_b {
                return None;
            }
            let mut j: usize = 0;
            while j < dim_b
                invariant
                    j <= dim_b,
                    i3 < n,
                    n == bap@.len(),
                    bap@[i3 as int]@.len() == dim_b,
                    forall|jj: int|
                        0 <= jj < j ==> -crate::FX_VAL_LIMIT <= #[trigger] bap@[i3 as int]@[jj]
                            <= crate::FX_VAL_LIMIT,
                decreases dim_b - j,
            {
                if !(-crate::FX_VAL_LIMIT <= bap[i3][j] && bap[i3][j] <= crate::FX_VAL_LIMIT) {
                    return None;
                }
                j += 1;
            }
            i3 += 1;
        }
        Some(WorldFeatures { base_f0, f0, f0_off: off2, mgc, bap })
    }
}

} // verus!
