//! Small numeric helpers shared by the rendering pipeline: truncated signed
//! division on top of unsigned machine division, fixed-point products, and
//! the grid utilities `transpose` and `pitch_parser`.

use vstd::prelude::*;

verus! {

/// Quotient of `a / b` truncated toward zero (`b > 0`).  Spec-level `/` on
/// `int` is Euclidean, so the negative case is written through the negated
/// magnitude.
pub open spec fn tdiv(a: int, b: int) -> int {
    if a >= 0 {
        a / b
    } else {
        -((-a) / b)
    }
}

/// Magnitude of an `i64` as a `u64`.
pub open spec fn spec_abs(a: int) -> int {
    if a >= 0 {
        a
    } else {
        -a
    }
}

fn abs_u64(a: i64) -> (r: u64)
    ensures
        r == spec_abs(a as int),
{
    if a >= 0 {
        a as u64
    } else if a == i64::MIN {
        0x8000000000000000u64
    } else {
        (-a) as u64
    }
}

/// `a * b / den`, truncated toward zero, computed without overflow through
/// 128-bit magnitudes.
pub fn mul_div_trunc(a: i64, b: i64, den: i64) -> (r: i64)
    requires
        den >= 1,
        spec_abs(a as int * b as int) / (den as int) <= i64::MAX,
    ensures
        r == tdiv(a as int * b as int, den as int),
{
    let ma: u128 = abs_u64(a) as u128;
    let mb: u128 = abs_u64(b) as u128;
    proof {
        assert(ma * mb <= u128::MAX) by (nonlinear_arith)
            requires
                ma <= u64::MAX && mb <= u64::MAX,
        ;
    }
    let m: u128 = ma * mb;
    let q: u128 = m / (den as u128);
    proof {
        assert(m == spec_abs(a as int * b as int)) by (nonlinear_arith)
            requires
                m == spec_abs(a as int) * spec_abs(b as int),
        ;
        assert(q == spec_abs(a as int * b as int) / (den as int));
    }
    let neg = (a < 0) != (b < 0);
    if neg {
        proof {
            assert(a as int * b as int <= 0) by (nonlinear_arith)
                requires
                    (a < 0 && b >= 0) || (a >= 0 && b < 0),
            ;
        }
        -(q as i64)
    } else {
        proof {
            assert(a as int * b as int >= 0) by (nonlinear_arith)
                requires
                    (a < 0 && b < 0) || (a >= 0 && b >= 0),
            ;
        }
        q as i64
    }
}

/// The magnitude of a truncated quotient is the quotient of the magnitude.
pub proof fn lemma_tdiv_abs(a: int, den: int)
    requires
        den >= 1,
    ensures
        spec_abs(tdiv(a, den)) == spec_abs(a) / den,
        spec_abs(tdiv(a, den)) <= spec_abs(a),
{
    vstd::arithmetic::div_mod::lemma_div_is_ordered_by_denominator(spec_abs(a), 1, den);
    vstd::arithmetic::div_mod::lemma_div_basics(spec_abs(a));
    if a < 0 {
        vstd::arithmetic::div_mod::lemma_div_pos_is_pos(-a, den);
    } else {
        vstd::arithmetic::div_mod::lemma_div_pos_is_pos(a, den);
    }
}

/// Fixed-point product: `a * b` with the result rescaled by [`crate::FX_ONE`],
/// truncated toward zero.
pub fn mul_fx(a: i64, b: i64) -> (r: i64)
    requires
        spec_abs(a as int) <= 0x20000000000,
        spec_abs(b as int) <= 0x20000000000,
    ensures
        r == tdiv(a as int * b as int, crate::FX_ONE as int),
        spec_abs(r as int) <= spec_abs(a as int * b as int) / crate::FX_ONE as int,
{
    proof {
        assert(spec_abs(a as int * b as int) == spec_abs(a as int) * spec_abs(b as int)
            && spec_abs(a as int) * spec_abs(b as int) <= 0x20000000000 * 0x20000000000)
            by (nonlinear_arith)
            requires
                spec_abs(a as int) <= 0x20000000000,
                spec_abs(b as int) <= 0x20000000000,
        ;
        vstd::arithmetic::div_mod::lemma_div_is_ordered(
            spec_abs(a as int * b as int),
            0x20000000000int * 0x20000000000int,
            crate::FX_ONE as int,
        );
        lemma_tdiv_abs(a as int * b as int, crate::FX_ONE as int);
    }
    mul_div_trunc(a, b, crate::FX_ONE)
}

/// Linear interpolation from `a` toward `b` by the ratio `num / den`,
/// truncated toward zero; the workhorse of the pitch-curve grid.
pub fn lerp_fx(a: i64, b: i64, num: i64, den: i64) -> (r: i64)
    requires
        0 <= num <= den,
        1 <= den,
        spec_abs(a as int) <= 0x400000000000,
        spec_abs(b as int) <= 0x400000000000,
    ensures
        r == a + tdiv((b - a) * num, den as int),
        a <= b ==> a <= r <= b,
        b <= a ==> b <= r <= a,
{
    let d = if b >= a {
        b - a
    } else {
        -(a - b)
    };
    proof {
        let dd = d as int;
        let nn = num as int;
        let den_i = den as int;
        assert(spec_abs(dd * nn) == spec_abs(dd) * nn && spec_abs(dd) * nn <= spec_abs(dd)
            * den_i) by (nonlinear_arith)
            requires
                0 <= nn <= den_i,
        ;
        vstd::arithmetic::div_mod::lemma_div_is_ordered(
            spec_abs(dd) * nn,
            spec_abs(dd) * den_i,
            den_i,
        );
        vstd::arithmetic::div_mod::lemma_div_multiples_vanish(spec_abs(dd), den_i);
        assert(spec_abs(dd) * den_i == den_i * spec_abs(dd)) by (nonlinear_arith);
        lemma_tdiv_abs(dd * nn, den_i);
        if dd >= 0 {
            assert(dd * nn >= 0) by (nonlinear_arith)
                requires
                    dd >= 0 && nn >= 0,
            ;
        } else {
            assert(dd * nn <= 0) by (nonlinear_arith)
                requires
                    dd <= 0 && nn >= 0,
            ;
        }
    }
    let step = mul_div_trunc(d, num, den);
    a + step
}

/// Turns a row-major grid into a column-major one: element `[i][j]` of the
/// input becomes element `[j][i]` of the result.  Rows longer than the first
/// row lose their surplus elements, exactly as many columns as the first row
/// has are produced.
pub fn transpose<T>(v: Vec<Vec<T>>) -> (r: Vec<Vec<T>>)
    requires
        v@.len() > 0,
        forall|i: int| 0 <= i < v@.len() ==> #[trigger] v@[i]@.len() >= v@[0]@.len(),
    ensures
        r@.len() == v@[0]@.len(),
        forall|j: int| 0 <= j < r@.len() ==> #[trigger] r@[j]@.len() == v@.len(),
        forall|i: int, j: int|
            0 <= i < v@.len() && 0 <= j < r@.len() ==> #[trigger] r@[j]@[i] == v@[i]@[j],
{
    let ghost orig = v@;
    let len = v[0].len();
    let mut rows = v;
    let mut out: Vec<Vec<T>> = Vec::new();
    let mut j: usize = 0;
    while j < len
        invariant
            0 <= j <= len,
            len == orig[0]@.len(),
            rows@.len() == orig.len() > 0,
            forall|i: int|
                0 <= i < orig.len() ==> #[trigger] rows@[i]@ == orig[i]@.skip(j as int),
            forall|i: int| 0 <= i < orig.len() ==> #[trigger] orig[i]@.len() >= len,
            out@.len() == j,
            forall|jj: int| 0 <= jj < j ==> #[trigger] out@[jj]@.len() == orig.len(),
            forall|i: int, jj: int|
                0 <= i < orig.len() && 0 <= jj < j ==> #[trigger] out@[jj]@[i] == orig[i]@[jj],
        decreases len - j,
    {
        let mut out_row: Vec<T> = Vec::new();
        let mut i: usize = 0;
        while i < rows.len()
            invariant
                0 <= i <= rows@.len(),
                0 <= j < len,
                len == orig[0]@.len(),
                rows@.len() == orig.len() > 0,
                forall|ii: int|
                    0 <= ii < i ==> #[trigger] rows@[ii]@ == orig[ii]@.skip(j + 1int),
                forall|ii: int|
                    i <= ii < orig.len() ==> #[trigger] rows@[ii]@ == orig[ii]@.skip(j as int),
                forall|ii: int| 0 <= ii < orig.len() ==> #[trigger] orig[ii]@.len() >= len,
                out_row@.len() == i,
                forall|ii: int| 0 <= ii < i ==> #[trigger] out_row@[ii] == orig[ii]@[j as int],
            decreases rows@.len() - i,
        {
            let mut row = rows.remove(i);
            let x = row.remove(0);
            proof {
                assert(orig[i as int]@.skip(j as int)[0] == orig[i as int]@[j as int]);
                assert(orig[i as int]@.skip(j as int).remove(0) =~= orig[i as int]@.skip(j + 1int));
            }
            out_row.push(x);
            rows.insert(i, row);
            i += 1;
        }
        out.push(out_row);
        j += 1;
    }
    out
}

/// A product scaled down by `num / den` with `num <= den` never grows in
/// magnitude.
pub proof fn lemma_mul_div_bound(a: int, num: int, den: int)
    requires
        0 <= num <= den,
        1 <= den,
    ensures
        spec_abs(tdiv(a * num, den)) <= spec_abs(a),
        spec_abs(a * num) / den <= spec_abs(a),
{
    assert(spec_abs(a * num) == spec_abs(a) * num && spec_abs(a) * num <= spec_abs(a) * den)
        by (nonlinear_arith)
        requires
            0 <= num <= den,
    ;
    vstd::arithmetic::div_mod::lemma_div_is_ordered(spec_abs(a) * num, spec_abs(a) * den, den);
    vstd::arithmetic::div_mod::lemma_div_multiples_vanish(spec_abs(a), den);
    assert(spec_abs(a) * den == den * spec_abs(a)) by (nonlinear_arith);
    lemma_tdiv_abs(a * num, den);
}

/// A multiple of the divisor divides back exactly, whatever its sign.
pub proof fn lemma_tdiv_exact_multiple(a: int, d: int)
    requires
        1 <= d,
    ensures
        tdiv(a * d, d) == a,
{
    if a >= 0 {
        vstd::arithmetic::div_mod::lemma_div_multiples_vanish(a, d);
        assert(a * d == d * a) by (nonlinear_arith);
    } else {
        vstd::arithmetic::div_mod::lemma_div_multiples_vanish(-a, d);
        assert(-(a * d) == d * (-a)) by (nonlinear_arith);
        assert(a * d <= 0) by (nonlinear_arith)
            requires
                a <= 0 && d >= 1,
        ;
    }
}

/// Exact product of two machine words, wide enough never to overflow.
pub fn mul_i128(a: i64, b: i64) -> (r: i128)
    ensures
        r == a as int * b as int,
{
    proof {
        assert(i128::MIN <= a as int * b as int <= i128::MAX) by (nonlinear_arith)
            requires
                -0x8000000000000000 <= a as int <= 0x7fffffffffffffff,
                -0x8000000000000000 <= b as int <= 0x7fffffffffffffff,
        ;
    }
    (a as i128) * (b as i128)
}

/// Truncated division of a wide intermediate back into a machine word.
pub fn tdiv_i128(num: i128, den: i128) -> (r: i64)
    requires
        1 <= den,
        -0x40000000000000000000000000000000 <= num <= 0x40000000000000000000000000000000,
        spec_abs(num as int) / (den as int) <= i64::MAX,
    ensures
        r == tdiv(num as int, den as int),
{
    if num >= 0 {
        let q: u128 = (num as u128) / (den as u128);
        q as i64
    } else {
        let m: u128 = (-num) as u128;
        let q: u128 = m / (den as u128);
        -(q as i64)
    }
}

/// Semitone of a note letter within the octave, `-1` for other characters.
pub open spec fn note_letter_val(c: char) -> int {
    if c == 'C' {
        0
    } else if c == 'D' {
        2
    } else if c == 'E' {
        4
    } else if c == 'F' {
        5
    } else if c == 'G' {
        7
    } else if c == 'A' {
        9
    } else if c == 'B' {
        11
    } else {
        -1
    }
}

/// A decimal integer with an optional sign.
pub open spec fn int_token_shape(s: Seq<char>) -> bool {
    if s.len() == 0 {
        false
    } else if s[0] == '-' || s[0] == '+' {
        s.len() >= 2 && crate::text::all_digits(s.skip(1))
    } else {
        crate::text::all_digits(s)
    }
}

pub open spec fn int_token_val(s: Seq<char>) -> int {
    if s.len() >= 1 && s[0] == '-' {
        -crate::text::digits_val(s.skip(1))
    } else if s.len() >= 1 && s[0] == '+' {
        crate::text::digits_val(s.skip(1))
    } else {
        crate::text::digits_val(s)
    }
}

/// The octave part of a note token: what follows the letter and the optional
/// sharp.
pub open spec fn note_token_rest(s: Seq<char>) -> Seq<char> {
    if s.len() >= 2 && s[1] == '#' {
        s.skip(2)
    } else {
        s.skip(1)
    }
}

/// A note name: letter `A`..`G`, optional `#`, signed octave number.
pub open spec fn note_token_shape(s: Seq<char>) -> bool {
    s.len() >= 2 && note_letter_val(s[0]) >= 0 && {
        let rest = note_token_rest(s);
        if rest.len() >= 1 && rest[0] == '-' {
            rest.len() >= 2 && crate::text::all_digits(rest.skip(1))
        } else {
            rest.len() >= 1 && crate::text::all_digits(rest)
        }
    }
}

pub open spec fn note_token_octave(s: Seq<char>) -> int {
    let rest = note_token_rest(s);
    if rest.len() >= 1 && rest[0] == '-' {
        -crate::text::digits_val(rest.skip(1))
    } else {
        crate::text::digits_val(rest)
    }
}

/// Key of a note token: `(octave + 1) * 12` plus the letter's semitone,
/// raised one more by a sharp.
pub open spec fn note_token_key(s: Seq<char>) -> int {
    (note_token_octave(s) + 1) * 12 + note_letter_val(s[0]) + (if s.len() >= 2 && s[1] == '#' {
        1int
    } else {
        0int
    })
}

/// The pitch key a name denotes: an integer names its own key, a note token
/// names `(octave + 1) * 12 + semitone`; `None` for anything else or for
/// values outside `i32`.
pub open spec fn spec_pitch_key(s: Seq<char>) -> Option<int> {
    if int_token_shape(s) && -0x80000000 <= int_token_val(s) <= 0x7fffffff {
        Some(int_token_val(s))
    } else if !int_token_shape(s) && note_token_shape(s) && -0x80000000 <= note_token_octave(s)
        <= 0x7fffffff && -0x80000000 <= note_token_key(s) <= 0x7fffffff {
        Some(note_token_key(s))
    } else {
        None
    }
}

/// Reads a pitch name: either a plain integer key or a note-name token such
/// as a sharpened letter with a signed octave.
pub fn pitch_parser(arg: &str) -> (r: Result<i32, crate::error::SynthError>)
    ensures
        (spec_pitch_key(arg@) matches Some(k) ==> (r matches Ok(v) && v == k)),
        spec_pitch_key(arg@) is None ==> r == Err::<i32, crate::error::SynthError>(
            crate::error::SynthError::BadPitchName,
        ),
{
    let cs = crate::text::str_to_chars(arg);
    let n = cs.len();
    let mut start: usize = 0;
    let mut negative = false;
    if n > 0 && (cs[0] == '-' || cs[0] == '+') {
        negative = cs[0] == '-';
        start = 1;
    }
    let (e, val) = crate::text::scan_digits(&cs, start, n, 0x100000000);
    proof {
        if start == 1 {
            assert(arg@.skip(1) =~= cs@.subrange(1, n as int));
        } else {
            assert(arg@ =~= cs@.subrange(0, n as int));
        }
    }
    if e == n && e > start {
        // Integer token; out-of-range values name nothing.
        if negative {
            if val <= 0x80000000 {
                return Ok(-(val as i64) as i32);
            }
            return Err(crate::error::SynthError::BadPitchName);
        }
        if val <= 0x7fffffff {
            return Ok(val as i32);
        }
        return Err(crate::error::SynthError::BadPitchName);
    }
    proof {
        if e < n {
            assert(cs@.subrange(start as int, n as int)[e - start] == cs@[e as int]);
            assert(!crate::text::all_digits(cs@.subrange(start as int, n as int)));
        }
        assert(!int_token_shape(arg@));
    }
    if n < 2 {
        return Err(crate::error::SynthError::BadPitchName);
    }
    let c0 = cs[0];
    let letter: i64 = if c0 == 'C' {
        0
    } else if c0 == 'D' {
        2
    } else if c0 == 'E' {
        4
    } else if c0 == 'F' {
        5
    } else if c0 == 'G' {
        7
    } else if c0 == 'A' {
        9
    } else if c0 == 'B' {
        11
    } else {
        -1
    };
    if letter < 0 {
        return Err(crate::error::SynthError::BadPitchName);
    }
    let mut p: usize = 1;
    let mut sharp: i64 = 0;
    if cs[1] == '#' {
        p = 2;
        sharp = 1;
    }
    let ghost rest = note_token_rest(arg@);
    proof {
        assert(rest =~= cs@.subrange(p as int, n as int));
    }
    let mut oct_negative = false;
    if p < n && cs[p] == '-' {
        oct_negative = true;
        p += 1;
    }
    let (e2, oval) = crate::text::scan_digits(&cs, p, n, 0x100000000);
    proof {
        if oct_negative {
            assert(rest.skip(1) =~= cs@.subrange(p as int, n as int));
        }
    }
    if !(e2 == n && e2 > p) {
        proof {
            if e2 < n {
                assert(cs@.subrange(p as int, n as int)[e2 - p] == cs@[e2 as int]);
                assert(!crate::text::all_digits(cs@.subrange(p as int, n as int)));
            }
            assert(!note_token_shape(arg@));
        }
        return Err(crate::error::SynthError::BadPitchName);
    }
    let in_range = if oct_negative {
        oval <= 0x80000000
    } else {
        oval <= 0x7fffffff
    };
    if !in_range {
        return Err(crate::error::SynthError::BadPitchName);
    }
    let octave: i64 = if oct_negative {
        -(oval as i64)
    } else {
        oval as i64
    };
    let key: i64 = (octave + 1) * 12 + letter + sharp;
    if -0x80000000 <= key && key <= 0x7fffffff {
        Ok(key as i32)
    } else {
        Err(crate::error::SynthError::BadPitchName)
    }
}

} // verus!
