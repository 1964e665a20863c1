//! Character-level scanning primitives: digit runs with saturation, signed
//! decimal numbers in microseconds, and whitespace trimming.  The voicebank
//! tables and the note-name grammar are parsed on top of these.

use vstd::prelude::*;

verus! {

/// ASCII decimal digit.
pub open spec fn is_digit(c: char) -> bool {
    '0' <= c && c <= '9'
}

/// Numeric value of a digit character.
pub open spec fn digit_val(c: char) -> int {
    c as int - '0' as int
}

/// Every character of `s` is a decimal digit.
pub open spec fn all_digits(s: Seq<char>) -> bool {
    forall|i: int| 0 <= i < s.len() ==> is_digit(#[trigger] s[i])
}

/// Value of a digit string read most-significant first; 0 when empty.
pub open spec fn digits_val(s: Seq<char>) -> int
    decreases s.len(),
{
    if s.len() == 0 {
        0
    } else {
        digits_val(s.drop_last()) * 10 + digit_val(s.last())
    }
}

pub proof fn lemma_digits_val_nonneg(s: Seq<char>)
    requires
        all_digits(s),
    ensures
        digits_val(s) >= 0,
    decreases s.len(),
{
    if s.len() > 0 {
        assert(all_digits(s.drop_last()));
        lemma_digits_val_nonneg(s.drop_last());
    }
}

/// Scans the maximal digit run of `s[start..end)`.  Returns the index one
/// past the run and its value, saturated at `cap`: the value is exact
/// whenever the run's true value does not exceed `cap`, and `cap` otherwise.
pub fn scan_digits(s: &Vec<char>, start: usize, end: usize, cap: u64) -> (res: (usize, u64))
    requires
        start <= end <= s@.len(),
        cap <= 0x400000000000000,
    ensures
        start <= res.0 <= end,
        forall|k: int| start <= k < res.0 ==> is_digit(#[trigger] s@[k]),
        res.0 < end ==> !is_digit(s@[res.0 as int]),
        res.1 <= cap,
        digits_val(s@.subrange(start as int, res.0 as int)) <= cap ==> res.1 == digits_val(
            s@.subrange(start as int, res.0 as int),
        ),
        digits_val(s@.subrange(start as int, res.0 as int)) > cap ==> res.1 == cap,
{
    let mut i = start;
    let mut acc: u64 = 0;
    while i < end && s[i] >= '0' && s[i] <= '9'
        invariant
            start <= i <= end <= s@.len(),
            cap <= 0x400000000000000,
            forall|k: int| start <= k < i ==> is_digit(#[trigger] s@[k]),
            acc <= cap,
            digits_val(s@.subrange(start as int, i as int)) <= cap ==> acc == digits_val(
                s@.subrange(start as int, i as int),
            ),
            digits_val(s@.subrange(start as int, i as int)) > cap ==> acc == cap,
        decreases s@.len() - i,
    {
        let c = s[i];
        let d: u64 = (c as u32 - '0' as u32) as u64;
        proof {
            let run = s@.subrange(start as int, i as int);
            let run2 = s@.subrange(start as int, i + 1int);
            assert(run2.drop_last() =~= run);
            assert(run2.last() == s@[i as int]);
            assert(all_digits(run));
            lemma_digits_val_nonneg(run);
        }
        let t: u64 = acc * 10 + d;
        let next: u64 = if t > cap {
            cap
        } else {
            t
        };
        proof {
            let run = s@.subrange(start as int, i as int);
            let run2 = s@.subrange(start as int, i + 1int);
            assert(digits_val(run2) == digits_val(run) * 10 + digit_val(s@[i as int]));
            if digits_val(run) > cap {
                assert(digits_val(run) * 10 >= digits_val(run)) by (nonlinear_arith)
                    requires
                        digits_val(run) >= 0,
                ;
            }
        }
        acc = next;
        i += 1;
    }
    proof {
        if i < end {
            assert(!is_digit(s@[i as int]));
        }
    }
    (i, acc)
}

/// Characters discarded by trimming: blank, tab, carriage return, newline.
pub open spec fn is_space(c: char) -> bool {
    c == ' ' || c == '\t' || c == '\r' || c == '\n'
}

/// `s` without leading and trailing whitespace.
pub open spec fn trim_seq(s: Seq<char>) -> Seq<char>
    decreases s.len(),
{
    if s.len() == 0 {
        s
    } else if is_space(s[0]) {
        trim_seq(s.drop_first())
    } else if is_space(s.last()) {
        trim_seq(s.drop_last())
    } else {
        s
    }
}

pub proof fn lemma_trim_range(t: Seq<char>, lo: int, hi: int)
    requires
        0 <= lo <= hi <= t.len(),
        forall|k: int| 0 <= k < lo ==> is_space(#[trigger] t[k]),
        forall|k: int| hi <= k < t.len() ==> is_space(#[trigger] t[k]),
        lo < hi ==> !is_space(t[lo]) && !is_space(t[hi - 1]),
    ensures
        trim_seq(t) =~= t.subrange(lo, hi),
    decreases t.len(),
{
    if t.len() == 0 {
    } else if is_space(t[0]) {
        if lo == hi {
            lemma_trim_range(t.drop_first(), 0, 0);
        } else {
            lemma_trim_range(t.drop_first(), lo - 1, hi - 1);
            assert(t.drop_first().subrange(lo - 1, hi - 1) =~= t.subrange(lo, hi));
        }
    } else if is_space(t.last()) {
        if lo == hi {
            lemma_trim_range(t.drop_last(), 0, 0);
            assert(t.drop_last().subrange(0, 0) =~= t.subrange(lo, hi));
        } else {
            lemma_trim_range(t.drop_last(), lo, hi);
            assert(t.drop_last().subrange(lo, hi) =~= t.subrange(lo, hi));
        }
    } else {
        assert(lo == 0);
        assert(hi == t.len());
        assert(t.subrange(0, t.len() as int) =~= t);
    }
}

/// Trimmed bounds of `s[start..end)`: the subrange they delimit is the
/// whitespace-trimmed middle of the given range.
pub fn trim_bounds(s: &Vec<char>, start: usize, end: usize) -> (res: (usize, usize))
    requires
        start <= end <= s@.len(),
    ensures
        start <= res.0 <= res.1 <= end,
        s@.subrange(res.0 as int, res.1 as int) == trim_seq(
            s@.subrange(start as int, end as int),
        ),
{
    let mut lo = start;
    while lo < end && (s[lo] == ' ' || s[lo] == '\t' || s[lo] == '\r' || s[lo] == '\n')
        invariant
            start <= lo <= end <= s@.len(),
            forall|k: int| start <= k < lo ==> is_space(#[trigger] s@[k]),
        decreases end - lo,
    {
        lo += 1;
    }
    let mut hi = end;
    while hi > lo && (s[hi - 1] == ' ' || s[hi - 1] == '\t' || s[hi - 1] == '\r' || s[hi - 1]
        == '\n')
        invariant
            start <= lo <= hi <= end <= s@.len(),
            forall|k: int| start <= k < lo ==> is_space(#[trigger] s@[k]),
            forall|k: int| hi <= k < end ==> is_space(#[trigger] s@[k]),
        decreases hi,
    {
        hi -= 1;
    }
    proof {
        let t = s@.subrange(start as int, end as int);
        lemma_trim_range(t, lo - start, hi - start);
        assert(t.subrange(lo - start, hi - start) =~= s@.subrange(lo as int, hi as int));
    }
    (lo, hi)
}

/// The characters of `s`, in order.
pub fn str_to_chars(s: &str) -> (r: Vec<char>)
    ensures
        r@ == s@,
{
    let n = s.unicode_len();
    let mut v: Vec<char> = Vec::new();
    let mut i: usize = 0;
    while i < n
        invariant
            0 <= i <= n,
            n == s@.len(),
            v@ =~= s@.take(i as int),
        decreases n - i,
    {
        let c = s.get_char(i);
        v.push(c);
        proof {
            assert(v@ =~= s@.take(i + 1int));
        }
        i += 1;
    }
    proof {
        assert(s@.take(n as int) =~= s@);
    }
    v
}

/// Index of the first `c` in `s` at or after `i`, or `s.len()` if none.
pub open spec fn find_char(s: Seq<char>, c: char, i: int) -> int
    decreases s.len() - i,
{
    if i < 0 || i >= s.len() {
        s.len() as int
    } else if s[i] == c {
        i
    } else {
        find_char(s, c, i + 1)
    }
}

pub proof fn lemma_find_char_at(s: Seq<char>, c: char, i: int, d: int)
    requires
        0 <= i <= d <= s.len(),
        d < s.len() ==> s[d] == c,
        forall|j: int| i <= j < d ==> s[j] != c,
    ensures
        find_char(s, c, i) == if d < s.len() {
            d
        } else {
            s.len() as int
        },
    decreases d - i,
{
    if i < d {
        lemma_find_char_at(s, c, i + 1, d);
    }
}

/// First occurrence of `c` in `s[start..end)`, or `end` if there is none.
pub fn find_char_in(s: &Vec<char>, c: char, start: usize, end: usize) -> (p: usize)
    requires
        start <= end <= s@.len(),
    ensures
        start <= p <= end,
        forall|j: int| start <= j < p ==> s@[j] != c,
        p < end ==> s@[p as int] == c,
{
    let mut i = start;
    while i < end
        invariant
            start <= i <= end <= s@.len(),
            forall|j: int| start <= j < i ==> s@[j] != c,
        decreases end - i,
    {
        if s[i] == c {
            return i;
        }
        i += 1;
    }
    end
}

/// Index of the first `'.'` in `b` at or after `i`, or `b.len()` if none.
pub open spec fn first_dot(b: Seq<char>, i: int) -> int
    decreases b.len() - i,
{
    if i < 0 || i >= b.len() {
        b.len() as int
    } else if b[i] == '.' {
        i
    } else {
        first_dot(b, i + 1)
    }
}

pub proof fn lemma_first_dot_props(b: Seq<char>, i: int)
    requires
        0 <= i <= b.len(),
    ensures
        i <= first_dot(b, i) <= b.len(),
        first_dot(b, i) < b.len() ==> b[first_dot(b, i)] == '.',
        forall|j: int| i <= j < first_dot(b, i) ==> b[j] != '.',
    decreases b.len() - i,
{
    if i < b.len() && b[i] != '.' {
        lemma_first_dot_props(b, i + 1);
    }
}

pub proof fn lemma_first_dot_at(b: Seq<char>, d: int)
    requires
        0 <= d <= b.len(),
        d < b.len() ==> b[d] == '.',
        forall|j: int| 0 <= j < d ==> b[j] != '.',
    ensures
        first_dot(b, 0) == d,
    decreases d + 1,
{
    lemma_first_dot_step(b, 0, d);
}

proof fn lemma_first_dot_step(b: Seq<char>, i: int, d: int)
    requires
        0 <= i <= d <= b.len(),
        d < b.len() ==> b[d] == '.',
        forall|j: int| 0 <= j < d ==> b[j] != '.',
    ensures
        first_dot(b, i) == d,
    decreases d - i,
{
    if i < d {
        lemma_first_dot_step(b, i + 1, d);
    }
}

/// A plain decimal numeral: digits, optionally followed by `'.'` and more
/// digits, with at least one digit in all.
pub open spec fn decimal_body_ok(b: Seq<char>) -> bool {
    let d = first_dot(b, 0);
    &&& all_digits(b.take(d))
    &&& (d < b.len() ==> all_digits(b.skip(d + 1)))
    &&& (d >= 1 || (d < b.len() && b.len() >= d + 2))
}

/// `k`-th digit after the decimal point, 0 past the written digits.
pub open spec fn frac_digit(f: Seq<char>, k: int) -> int {
    if 0 <= k < f.len() {
        digit_val(f[k])
    } else {
        0
    }
}

/// Value of a decimal-numeral body in microseconds (the numeral itself is in
/// milliseconds); fractional digits past the third are dropped.
pub open spec fn decimal_body_us(b: Seq<char>) -> int {
    let d = first_dot(b, 0);
    let f = if d < b.len() {
        b.skip(d + 1)
    } else {
        Seq::<char>::empty()
    };
    digits_val(b.take(d)) * 1000 + 100 * frac_digit(f, 0) + 10 * frac_digit(f, 1) + frac_digit(
        f,
        2,
    )
}

/// A millisecond field as the library reads it: optional sign, decimal
/// numeral, value in microseconds saturated at [`crate::MAX_TIME_US`];
/// anything else counts 0.
pub open spec fn spec_decimal_us(s: Seq<char>) -> int {
    let signed = s.len() >= 1 && (s[0] == '-' || s[0] == '+');
    let b = if signed {
        s.skip(1)
    } else {
        s
    };
    if !decimal_body_ok(b) {
        0
    } else {
        let raw = decimal_body_us(b);
        let v = if s.len() >= 1 && s[0] == '-' {
            -raw
        } else {
            raw
        };
        if v > crate::MAX_TIME_US {
            crate::MAX_TIME_US as int
        } else if v < -crate::MAX_TIME_US {
            -crate::MAX_TIME_US as int
        } else {
            v
        }
    }
}

/// Reads the millisecond field `s[start..end)` as microseconds, exactly as
/// [`spec_decimal_us`] states.
#[verifier::rlimit(60)]
pub fn parse_decimal_us(s: &Vec<char>, start: usize, end: usize) -> (v: i64)
    requires
        start <= end <= s@.len(),
    ensures
        v == spec_decimal_us(s@.subrange(start as int, end as int)),
        -crate::MAX_TIME_US <= v <= crate::MAX_TIME_US,
{
    let ghost whole = s@.subrange(start as int, end as int);
    let mut idx = start;
    let mut negative = false;
    if idx < end && (s[idx] == '-' || s[idx] == '+') {
        negative = s[idx] == '-';
        idx += 1;
    }
    let ghost b = s@.subrange(idx as int, end as int);
    proof {
        if whole.len() >= 1 && (whole[0] == '-' || whole[0] == '+') {
            assert(whole.skip(1) =~= b);
        } else {
            assert(whole =~= b);
        }
    }
    let cap: u64 = crate::MAX_TIME_US as u64;
    let (e1, dv) = scan_digits(s, idx, end, cap);
    let ghost d = e1 - idx;
    proof {
        assert(b.take(d) =~= s@.subrange(idx as int, e1 as int));
    }
    let mut ok: bool;
    let mut f0: i64 = 0;
    let mut f1: i64 = 0;
    let mut f2: i64 = 0;
    if e1 < end && s[e1] == '.' {
        proof {
            lemma_first_dot_at(b, d);
        }
        let (e2, _fv) = scan_digits(s, e1 + 1, end, 9);
        proof {
            assert(b.skip(d + 1) =~= s@.subrange(e1 + 1int, end as int));
        }
        ok = e2 == end && (e1 > idx || e2 > e1 + 1);
        if ok {
            let ghost f = b.skip(d + 1);
            let base = e1 + 1;
            if e2 - base > 0 {
                f0 = (s[base] as u32 - '0' as u32) as i64;
            }
            if e2 - base > 1 {
                f1 = (s[base + 1] as u32 - '0' as u32) as i64;
            }
            if e2 - base > 2 {
                f2 = (s[base + 2] as u32 - '0' as u32) as i64;
            }
            proof {
                assert(f0 == frac_digit(b.skip(d + 1), 0));
                assert(f1 == frac_digit(b.skip(d + 1), 1));
                assert(f2 == frac_digit(b.skip(d + 1), 2));
            }
        } else {
            proof {
                if e2 < end {
                    assert(b.skip(d + 1)[e2 - (idx + d + 1)] == s@[e2 as int]);
                    assert(!all_digits(b.skip(d + 1)));
                }
                assert(!decimal_body_ok(b));
            }
        }
    } else {
        ok = e1 == end && e1 > idx;
        proof {
            lemma_first_dot_props(b, 0);
            let fd = first_dot(b, 0);
            if e1 == end {
                lemma_first_dot_at(b, b.len() as int);
                assert(b.take(b.len() as int) =~= b);
            } else {
                // A non-digit, non-dot character sits at e1; whichever side of
                // the first dot it falls on, the shape test fails.
                if fd > d {
                    assert(!is_digit(b.take(fd)[d]));
                    assert(!all_digits(b.take(fd)));
                } else if fd == d {
                    assert(b[fd] == '.');
                    assert(false);
                } else {
                    assert(b.skip(fd + 1)[d - fd - 1] == b[d as int]);
                    assert(!all_digits(b.skip(fd + 1)));
                }
                assert(!decimal_body_ok(b));
            }
        }
    }
    if !ok {
        return 0i64;
    }
    let raw: i64 = (dv as i64) * 1000 + f0 * 100 + f1 * 10 + f2;
    proof {
        let dval = digits_val(b.take(d));
        lemma_digits_val_nonneg(b.take(d));
        if dval > cap {
            assert(dval * 1000 > cap * 1000) by (nonlinear_arith)
                requires
                    dval > cap && cap >= 0,
            ;
        }
    }
    let v: i64 = if negative {
        -raw
    } else {
        raw
    };
    if v > crate::MAX_TIME_US {
        crate::MAX_TIME_US
    } else if v < -crate::MAX_TIME_US {
        -crate::MAX_TIME_US
    } else {
        v
    }
}

} // verus!
