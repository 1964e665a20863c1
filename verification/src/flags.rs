//! Per-note flag strings.  A flag string is a run of tokens, each a letter
//! with an optional signed integer value; `t` shifts the pitch in cents and
//! `B` sets breathiness (0..100); other letters are ignored, `/` separators
//! are discarded, and anything else fails the parse.

use vstd::prelude::*;
use crate::text::{digits_val, is_digit, scan_digits, str_to_chars};

verus! {

/// Ghost image of a parsed flag string.
pub struct FlagsSpec {
    pub pitch_offset: int,
    pub breathiness: int,
}

/// Recognized note flags: a pitch offset in cents and a breathiness amount
/// in percent (50 is neutral).
#[derive(Clone, Copy, Debug, PartialEq, Eq, Structural)]
pub struct Flags {
    pub pitch_offset: i64,
    pub breathiness: i64,
}

impl View for Flags {
    type V = FlagsSpec;

    open spec fn view(&self) -> FlagsSpec {
        FlagsSpec { pitch_offset: self.pitch_offset as int, breathiness: self.breathiness as int }
    }
}

/// Largest pitch-offset magnitude kept, in cents; larger values saturate.
pub const PITCH_OFFSET_CAP: i64 = 1000000;

pub open spec fn is_ascii_letter(c: char) -> bool {
    ('a' <= c && c <= 'z') || ('A' <= c && c <= 'Z')
}

/// `s` with every `'/'` removed.
pub open spec fn strip_slash(s: Seq<char>) -> Seq<char>
    decreases s.len(),
{
    if s.len() == 0 {
        s
    } else if s.last() == '/' {
        strip_slash(s.drop_last())
    } else {
        strip_slash(s.drop_last()).push(s.last())
    }
}

/// Index one past the digit run starting at `i`.
pub open spec fn digits_end(s: Seq<char>, i: int) -> int
    decreases s.len() - i,
{
    if i < 0 || i >= s.len() {
        s.len() as int
    } else if !is_digit(s[i]) {
        i
    } else {
        digits_end(s, i + 1)
    }
}

pub proof fn lemma_digits_end_at(s: Seq<char>, i: int, d: int)
    requires
        0 <= i <= d <= s.len(),
        d < s.len() ==> !is_digit(s[d]),
        forall|j: int| i <= j < d ==> is_digit(#[trigger] s[j]),
    ensures
        digits_end(s, i) == if d < s.len() {
            d
        } else {
            s.len() as int
        },
    decreases d - i,
{
    if i < d {
        lemma_digits_end_at(s, i + 1, d);
    }
}

pub open spec fn clamp_spec(v: int, lo: int, hi: int) -> int {
    if v < lo {
        lo
    } else if v > hi {
        hi
    } else {
        v
    }
}

/// One parsing step at token position `i` of the slash-stripped text, and the
/// rest of the fold.  `None` is a malformed string: a non-letter where a
/// token must start, or a sign with no digits.
pub open spec fn flags_rec(s: Seq<char>, i: int, acc: FlagsSpec) -> Option<FlagsSpec>
    decreases s.len() - i,
{
    if i < 0 {
        None
    } else if i >= s.len() {
        Some(acc)
    } else if !is_ascii_letter(s[i]) {
        None
    } else {
        let signed = i + 1 < s.len() && (s[i + 1] == '-' || s[i + 1] == '+');
        let vstart = if signed {
            i + 2
        } else {
            i + 1
        };
        let vend = digits_end(s, vstart);
        if vend <= i || vend > s.len() {
            None
        } else if signed && vend == vstart {
            None
        } else {
            let raw = clamp_spec(
                digits_val(s.subrange(vstart, vend)),
                0,
                PITCH_OFFSET_CAP as int,
            );
            let value = if i + 1 < s.len() && s[i + 1] == '-' {
                -raw
            } else {
                raw
            };
            let has_value = vend > vstart;
            let acc2 = if s[i] == 't' && has_value {
                FlagsSpec { pitch_offset: value, breathiness: acc.breathiness }
            } else if s[i] == 'B' && has_value {
                FlagsSpec { pitch_offset: acc.pitch_offset, breathiness: clamp_spec(value, 0, 100) }
            } else {
                acc
            };
            flags_rec(s, vend, acc2)
        }
    }
}

/// What a flag string denotes: defaults (no pitch shift, breathiness 50)
/// folded through its tokens, `None` when malformed.
pub open spec fn spec_flags(raw: Seq<char>) -> Option<FlagsSpec> {
    flags_rec(strip_slash(raw), 0, FlagsSpec { pitch_offset: 0, breathiness: 50 })
}

/// Parses a note's flag string, exactly as [`spec_flags`] states.
#[verifier::rlimit(60)]
pub fn parse_flags(raw: &str) -> (r: Result<Flags, crate::error::SynthError>)
    ensures
        match spec_flags(raw@) {
            Some(fs) => r matches Ok(f) && f@ == fs,
            None => r == Err::<Flags, crate::error::SynthError>(crate::error::SynthError::BadFlags),
        },
        r matches Ok(f) ==> {
            &&& -PITCH_OFFSET_CAP <= f.pitch_offset <= PITCH_OFFSET_CAP
            &&& 0 <= f.breathiness <= 100
        },
{
    let all = str_to_chars(raw);
    let mut cs: Vec<char> = Vec::new();
    let mut i: usize = 0;
    while i < all.len()
        invariant
            i <= all@.len(),
            all@ == raw@,
            cs@ == strip_slash(all@.take(i as int)),
        decreases all@.len() - i,
    {
        proof {
            assert(all@.take(i + 1int).drop_last() =~= all@.take(i as int));
        }
        if all[i] != '/' {
            cs.push(all[i]);
        }
        i += 1;
    }
    proof {
        assert(all@.take(all@.len() as int) =~= all@);
    }
    let n = cs.len();
    let mut acc = Flags { pitch_offset: 0, breathiness: 50 };
    let mut p: usize = 0;
    while p < n
        invariant
            p <= n,
            n == cs@.len(),
            -PITCH_OFFSET_CAP <= acc.pitch_offset <= PITCH_OFFSET_CAP,
            0 <= acc.breathiness <= 100,
            flags_rec(cs@, p as int, acc@) == spec_flags(raw@),
            cs@ == strip_slash(raw@),
        decreases n - p,
    {
        let c = cs[p];
        let letter = ('a' <= c && c <= 'z') || ('A' <= c && c <= 'Z');
        if !letter {
            return Err(crate::error::SynthError::BadFlags);
        }
        let signed = p + 1 < n && (cs[p + 1] == '-' || cs[p + 1] == '+');
        let negative = p + 1 < n && cs[p + 1] == '-';
        let vstart = if signed {
            p + 2
        } else {
            p + 1
        };
        let (vend, dv) = scan_digits(&cs, vstart, n, PITCH_OFFSET_CAP as u64);
        proof {
            lemma_digits_end_at(cs@, vstart as int, vend as int);
            crate::text::lemma_digits_val_nonneg(cs@.subrange(vstart as int, vend as int));
        }
        if signed && vend == vstart {
            return Err(crate::error::SynthError::BadFlags);
        }
        let raw_v = dv as i64;
        let value = if negative {
            -raw_v
        } else {
            raw_v
        };
        if c == 't' && vend > vstart {
            acc = Flags { pitch_offset: value, breathiness: acc.breathiness };
        } else if c == 'B' && vend > vstart {
            let b = if value < 0 {
                0
            } else if value > 100 {
                100
            } else {
                value
            };
            acc = Flags { pitch_offset: acc.pitch_offset, breathiness: b };
        }
        p = vend;
    }
    Ok(acc)
}

} // verus!
