//! Akima cubic interpolation over uniformly spaced knots, in fixed point.
//! Sampling positions are fixed-point knot indices; at whole knots the knot
//! value is returned exactly, and a constant sequence interpolates to itself.

use vstd::prelude::*;
use crate::util::{mul_div_trunc, mul_i128, spec_abs, tdiv, tdiv_i128, lemma_mul_div_bound,
    lemma_tdiv_exact_multiple};

verus! {

/// Slope of the segment left of knot `k + 1`, the end segments extended flat
/// past the boundaries.
pub open spec fn spec_slope(ys: Seq<i64>, k: int) -> int {
    let kk = if k < 0 {
        0
    } else if k > ys.len() - 2 {
        ys.len() - 2
    } else {
        k
    };
    ys[kk + 1] - ys[kk]
}

/// Segment slope around knot `k`, boundary segments extended flat.
fn slope(y: &Vec<i64>, k: i64) -> (r: i64)
    requires
        2 <= y@.len() <= 0x40000000,
        -4 <= k <= y@.len() + 2,
        forall|i: int|
            0 <= i < y@.len() ==> -crate::FX_VAL_LIMIT <= #[trigger] y@[i] <= crate::FX_VAL_LIMIT,
    ensures
        r == spec_slope(y@, k as int),
        spec_abs(r as int) <= 2 * crate::FX_VAL_LIMIT,
{
    let n = y.len();
    let kk: usize = if k < 0 {
        0
    } else if k > (n - 2) as i64 {
        n - 2
    } else {
        k as usize
    };
    y[kk + 1] - y[kk]
}

/// Weighted average `(w1 * a + w2 * b) / (w1 + w2)`, truncated toward zero;
/// never larger in magnitude than the larger operand.
fn wavg(w1: i64, w2: i64, a: i64, b: i64) -> (r: i64)
    requires
        0 <= w1,
        0 <= w2,
        1 <= w1 + w2 <= 0x100000000000,
        spec_abs(a as int) <= 2 * crate::FX_VAL_LIMIT,
        spec_abs(b as int) <= 2 * crate::FX_VAL_LIMIT,
    ensures
        r == tdiv(w1 as int * a as int + w2 as int * b as int, w1 as int + w2 as int),
        spec_abs(r as int) <= 2 * crate::FX_VAL_LIMIT,
{
    let na: i128 = mul_i128(w1, a);
    let nb: i128 = mul_i128(w2, b);
    proof {
        let m = 2 * crate::FX_VAL_LIMIT as int;
        assert(spec_abs(w1 as int * a as int) <= w1 as int * m && spec_abs(w2 as int * b as int)
            <= w2 as int * m && w1 as int * m <= 0x100000000000int * m && w2 as int * m
            <= 0x100000000000int * m) by (nonlinear_arith)
            requires
                0 <= w1 as int <= 0x100000000000,
                0 <= w2 as int <= 0x100000000000,
                spec_abs(a as int) <= m,
                spec_abs(b as int) <= m,
                m >= 0,
        ;
    }
    let num: i128 = na + nb;
    let den: i64 = w1 + w2;
    proof {
        let m = 2 * crate::FX_VAL_LIMIT as int;
        assert(spec_abs(num as int) <= (w1 as int + w2 as int) * m) by (nonlinear_arith)
            requires
                spec_abs(w1 as int * a as int) <= w1 as int * m,
                spec_abs(w2 as int * b as int) <= w2 as int * m,
                num as int == w1 as int * a as int + w2 as int * b as int,
        ;
        vstd::arithmetic::div_mod::lemma_div_is_ordered(
            spec_abs(num as int),
            (den as int) * m,
            den as int,
        );
        vstd::arithmetic::div_mod::lemma_div_multiples_vanish(m, den as int);
        assert((den as int) * m == m * (den as int)) by (nonlinear_arith);
        crate::util::lemma_tdiv_abs(num as int, den as int);
    }
    tdiv_i128(num, den as i128)
}

/// Evaluates the Akima segment cubic: value `y0` and tangent `ti` at the
/// left knot, tangent `tj` at the right knot, segment slope `m`, at offset
/// `dt` within the segment.  At `dt == 0` it passes through `y0`, at a full
/// step through `y0 + m`, and zero tangents and slope leave `y0` unchanged.
#[verifier::rlimit(100)]
fn cubic_eval(y0: i64, ti: i64, tj: i64, m: i64, dt: i64) -> (r: i64)
    requires
        spec_abs(y0 as int) <= crate::FX_VAL_LIMIT,
        spec_abs(ti as int) <= 2 * crate::FX_VAL_LIMIT,
        spec_abs(tj as int) <= 2 * crate::FX_VAL_LIMIT,
        spec_abs(m as int) <= 2 * crate::FX_VAL_LIMIT,
        0 <= dt <= crate::FX_ONE,
    ensures
        dt == 0 ==> r == y0,
        dt == crate::FX_ONE ==> r == y0 + m,
        spec_abs(r as int) <= 32 * crate::FX_VAL_LIMIT,
        ti == 0 && tj == 0 && m == 0 ==> r == y0,
{
    let fx = crate::FX_ONE;
    let c2 = 3 * m - 2 * ti - tj;
    let c3 = ti + tj - 2 * m;
    proof {
        lemma_mul_div_bound(dt as int, dt as int, fx as int);
        crate::util::lemma_tdiv_abs(dt as int * dt as int, fx as int);
        vstd::arithmetic::div_mod::lemma_div_pos_is_pos(dt as int * dt as int, fx as int);
        assert(dt as int * dt as int >= 0) by (nonlinear_arith);
    }
    let dt2 = mul_div_trunc(dt, dt, fx);
    proof {
        lemma_mul_div_bound(dt2 as int, dt as int, fx as int);
        crate::util::lemma_tdiv_abs(dt2 as int * dt as int, fx as int);
        vstd::arithmetic::div_mod::lemma_div_pos_is_pos(dt2 as int * dt as int, fx as int);
        assert(dt2 as int * dt as int >= 0) by (nonlinear_arith)
            requires
                dt2 >= 0 && dt >= 0,
        ;
    }
    let dt3 = mul_div_trunc(dt2, dt, fx);
    proof {
        lemma_mul_div_bound(ti as int, dt as int, fx as int);
    }
    let term1 = mul_div_trunc(ti, dt, fx);
    proof {
        lemma_mul_div_bound(c2 as int, dt2 as int, fx as int);
    }
    let term2 = mul_div_trunc(c2, dt2, fx);
    proof {
        lemma_mul_div_bound(c3 as int, dt3 as int, fx as int);
    }
    let term3 = mul_div_trunc(c3, dt3, fx);
    proof {
        if dt == 0 {
            vstd::arithmetic::div_mod::lemma_div_of0(fx as int);
            assert(ti as int * 0 == 0 && c2 as int * 0 == 0 && c3 as int * 0 == 0);
            assert(term1 == 0 && term2 == 0 && term3 == 0);
        }
        if ti == 0 && tj == 0 && m == 0 {
            vstd::arithmetic::div_mod::lemma_div_of0(fx as int);
            assert(0int * dt2 as int == 0 && 0int * dt3 as int == 0 && 0int * dt as int == 0);
        }
        if dt == crate::FX_ONE {
            lemma_tdiv_exact_multiple(ti as int, fx as int);
            lemma_tdiv_exact_multiple(fx as int, fx as int);
            lemma_tdiv_exact_multiple(c2 as int, fx as int);
            lemma_tdiv_exact_multiple(c3 as int, fx as int);
            assert(term1 == ti && dt2 == fx && dt3 == fx && term2 == c2 && term3 == c3);
        }
    }
    y0 + term1 + term2 + term3
}

/// Samples the Akima cubic through `y` at the fixed-point knot position
/// `pos`.  Whole-knot positions return the knot value exactly; a constant
/// sequence interpolates to its constant.
#[verifier::rlimit(100)]
pub fn akima_sample(y: &Vec<i64>, pos: i64) -> (r: i64)
    requires
        1 <= y@.len() <= 0x40000000,
        forall|i: int|
            0 <= i < y@.len() ==> -crate::FX_VAL_LIMIT <= #[trigger] y@[i] <= crate::FX_VAL_LIMIT,
        0 <= pos <= (y@.len() - 1) * crate::FX_ONE,
    ensures
        (pos as int) % (crate::FX_ONE as int) == 0 ==> 0 <= (pos as int) / (crate::FX_ONE as int) < y@.len() && r
            == y@[(pos as int) / (crate::FX_ONE as int)],
        spec_abs(r as int) <= 32 * crate::FX_VAL_LIMIT,
        (forall|i: int| 0 <= i < y@.len() ==> #[trigger] y@[i] == y@[0]) ==> r == y@[0],
{
    let n = y.len();
    if n == 1 {
        return y[0];
    }
    let fx = crate::FX_ONE;
    let mut seg: usize = ((pos as u64) / (fx as u64)) as usize;
    let mut dt: i64;
    if seg >= n - 1 {
        proof {
            vstd::arithmetic::div_mod::lemma_fundamental_div_mod(pos as int, fx as int);
            assert((n - 1) * fx as int >= pos as int);
            assert(seg as int * fx as int <= pos as int) by (nonlinear_arith)
                requires
                    seg as int == pos as int / fx as int,
                    fx as int > 0,
                    pos as int >= 0,
            ;
        }
        seg = n - 2;
        dt = pos - (seg as i64) * fx;
    } else {
        dt = pos - (seg as i64) * fx;
    }
    proof {
        vstd::arithmetic::div_mod::lemma_fundamental_div_mod(pos as int, fx as int);
        vstd::arithmetic::div_mod::lemma_mod_bound(pos as int, fx as int);
    }
    let si = seg as i64;
    let m_im2 = slope(y, si - 2);
    let m_im1 = slope(y, si - 1);
    let m_i = slope(y, si);
    let m_ip1 = slope(y, si + 1);
    let m_ip2 = slope(y, si + 2);
    let w1 = if m_ip1 >= m_i {
        m_ip1 - m_i
    } else {
        m_i - m_ip1
    };
    let w2 = if m_im1 >= m_im2 {
        m_im1 - m_im2
    } else {
        m_im2 - m_im1
    };
    let ti = if w1 + w2 == 0 {
        wavg(1, 1, m_im1, m_i)
    } else {
        wavg(w1, w2, m_im1, m_i)
    };
    let v1 = if m_ip2 >= m_ip1 {
        m_ip2 - m_ip1
    } else {
        m_ip1 - m_ip2
    };
    let v2 = if m_i >= m_im1 {
        m_i - m_im1
    } else {
        m_im1 - m_i
    };
    let tj = if v1 + v2 == 0 {
        wavg(1, 1, m_i, m_ip1)
    } else {
        wavg(v1, v2, m_i, m_ip1)
    };
    let r = cubic_eval(y[seg], ti, tj, m_i, dt);
    proof {
        if (pos as int) % (crate::FX_ONE as int) == 0 {
            if dt == 0 {
                assert(r == y@[(pos as int) / (crate::FX_ONE as int)]);
            } else {
                assert(dt == fx);
                assert(pos == (n - 1) * fx);
                assert(r == y@[seg as int] + m_i);
                assert(spec_slope(y@, seg as int) == y@[seg as int + 1] - y@[seg as int]);
            }
        }
        if forall|i: int| 0 <= i < y@.len() ==> #[trigger] y@[i] == y@[0] {
            assert(spec_slope(y@, si - 2) == 0 && spec_slope(y@, si - 1) == 0 && spec_slope(
                y@,
                si as int,
            ) == 0 && spec_slope(y@, si + 1) == 0 && spec_slope(y@, si + 2) == 0);
            assert(ti == 0 && tj == 0) by {
                assert(tdiv(0, 2) == 0);
            }
        }
    }
    r
}

/// Resamples each column of a frame-major grid at the given fixed-point frame
/// positions: row `i` of the result interpolates every dimension at `t[i]`.
pub fn interpolate_first_axis(rows: &Vec<Vec<i64>>, t: &Vec<i64>) -> (out: Vec<Vec<i64>>)
    requires
        1 <= rows@.len() <= 0x40000000,
        forall|i: int| 0 <= i < rows@.len() ==> (#[trigger] rows@[i])@.len() == rows@[0]@.len(),
        forall|i: int, j: int|
            0 <= i < rows@.len() && 0 <= j < rows@[i]@.len() ==> -crate::FX_VAL_LIMIT
                <= #[trigger] rows@[i]@[j] <= crate::FX_VAL_LIMIT,
        forall|k: int|
            0 <= k < t@.len() ==> 0 <= #[trigger] t@[k] <= (rows@.len() - 1) * crate::FX_ONE,
    ensures
        out@.len() == t@.len(),
        forall|k: int| 0 <= k < out@.len() ==> (#[trigger] out@[k])@.len() == rows@[0]@.len(),
        forall|k: int, j: int|
            0 <= k < out@.len() && 0 <= j < out@[k]@.len() ==> spec_abs(#[trigger] out@[k]@[j] as int)
                <= 32 * crate::FX_VAL_LIMIT,
        forall|k: int, j: int|
            0 <= k < out@.len() && 0 <= j < out@[k]@.len() && (t@[k] as int) % (crate::FX_ONE as int) == 0
                ==> #[trigger] out@[k]@[j] == rows@[(t@[k] as int) / (crate::FX_ONE as int)]@[j],
{
    let dim = rows[0].len();
    let mut cols: Vec<Vec<i64>> = Vec::new();
    let mut j: usize = 0;
    while j < dim
        invariant
            j <= dim,
            dim == rows@[0]@.len(),
            1 <= rows@.len() <= 0x40000000,
            forall|i: int| 0 <= i < rows@.len() ==> (#[trigger] rows@[i])@.len() == dim,
            forall|i: int, jj: int|
                0 <= i < rows@.len() && 0 <= jj < dim ==> -crate::FX_VAL_LIMIT
                    <= #[trigger] rows@[i]@[jj] <= crate::FX_VAL_LIMIT,
            cols@.len() == j,
            forall|jj: int| 0 <= jj < j ==> (#[trigger] cols@[jj])@.len() == rows@.len(),
            forall|jj: int, i: int|
                0 <= jj < j && 0 <= i < rows@.len() ==> #[trigger] cols@[jj]@[i] == rows@[i]@[jj],
        decreases dim - j,
    {
        let mut col: Vec<i64> = Vec::new();
        let mut i: usize = 0;
        while i < rows.len()
            invariant
                i <= rows@.len(),
                j < dim,
                dim == rows@[0]@.len(),
                forall|ii: int| 0 <= ii < rows@.len() ==> (#[trigger] rows@[ii])@.len() == dim,
                col@.len() == i,
                forall|ii: int| 0 <= ii < i ==> #[trigger] col@[ii] == rows@[ii]@[j as int],
            decreases rows@.len() - i,
        {
            col.push(rows[i][j]);
            i += 1;
        }
        cols.push(col);
        j += 1;
    }
    let mut out: Vec<Vec<i64>> = Vec::new();
    let mut k: usize = 0;
    while k < t.len()
        invariant
            k <= t@.len(),
            dim == rows@[0]@.len(),
            1 <= rows@.len() <= 0x40000000,
            cols@.len() == dim,
            forall|jj: int| 0 <= jj < dim ==> (#[trigger] cols@[jj])@.len() == rows@.len(),
            forall|jj: int, i: int|
                0 <= jj < dim && 0 <= i < rows@.len() ==> #[trigger] cols@[jj]@[i] == rows@[i]@[jj],
            forall|i: int, jj: int|
                0 <= i < rows@.len() && 0 <= jj < dim ==> -crate::FX_VAL_LIMIT
                    <= #[trigger] rows@[i]@[jj] <= crate::FX_VAL_LIMIT,
            forall|kk: int|
                0 <= kk < t@.len() ==> 0 <= #[trigger] t@[kk] <= (rows@.len() - 1) * crate::FX_ONE,
            out@.len() == k,
            forall|kk: int| 0 <= kk < k ==> (#[trigger] out@[kk])@.len() == dim,
            forall|kk: int, jj: int|
                0 <= kk < k && 0 <= jj < dim ==> spec_abs(#[trigger] out@[kk]@[jj] as int) <= 32
                    * crate::FX_VAL_LIMIT,
            forall|kk: int, jj: int|
                0 <= kk < k && 0 <= jj < dim && (t@[kk] as int) % (crate::FX_ONE as int) == 0
                    ==> #[trigger] out@[kk]@[jj] == rows@[(t@[kk] as int) / (crate::FX_ONE as int)]@[jj],
        decreases t@.len() - k,
    {
        let mut row: Vec<i64> = Vec::new();
        let mut jj: usize = 0;
        while jj < dim
            invariant
                jj <= dim,
                k < t@.len(),
                dim == rows@[0]@.len(),
                1 <= rows@.len() <= 0x40000000,
                cols@.len() == dim,
                forall|j2: int| 0 <= j2 < dim ==> (#[trigger] cols@[j2])@.len() == rows@.len(),
                forall|j2: int, i: int|
                    0 <= j2 < dim && 0 <= i < rows@.len() ==> #[trigger] cols@[j2]@[i]
                        == rows@[i]@[j2],
                forall|i: int, j2: int|
                    0 <= i < rows@.len() && 0 <= j2 < dim ==> -crate::FX_VAL_LIMIT
                        <= #[trigger] rows@[i]@[j2] <= crate::FX_VAL_LIMIT,
                forall|kk: int|
                    0 <= kk < t@.len() ==> 0 <= #[trigger] t@[kk] <= (rows@.len() - 1)
                        * crate::FX_ONE,
                row@.len() == jj,
                forall|j2: int|
                    0 <= j2 < jj ==> spec_abs(#[trigger] row@[j2] as int) <= 32
                        * crate::FX_VAL_LIMIT,
                forall|j2: int|
                    0 <= j2 < jj && (t@[k as int] as int) % (crate::FX_ONE as int) == 0
                        ==> #[trigger] row@[j2] == rows@[(t@[k as int] as int) / (crate::FX_ONE as int)]@[j2],
            decreases dim - jj,
        {
            let v = akima_sample(&cols[jj], t[k]);
            row.push(v);
            jj += 1;
        }
        out.push(row);
        k += 1;
    }
    out
}

} // verus!
