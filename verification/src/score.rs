//! The score: notes with timing, pitch-bend breakpoints and per-note flags.
//! Times are microseconds; pitch-bend values are fixed-point semitones.

use vstd::prelude::*;
use vstd::string::StrSliceExecFns;

verus! {

/// One pitch-bend breakpoint: offset from the note start (microseconds) and
/// bend value (fixed-point semitones).
#[derive(Clone, Copy, Debug, PartialEq, Eq, Structural)]
pub struct PitchPoint {
    pub offset: i64,
    pub value: i64,
}

/// Largest volume gain the renderer accepts ([`crate::FX_ONE`] is unity).
pub const VOLUME_FX_LIMIT: i64 = 0x40000000;

/// One note of the score.  `volume` is a fixed-point gain; `velocity` and
/// `modulation` are carried for completeness and do not influence rendering.
#[derive(Clone, Debug)]
pub struct Note {
    pub alias: String,
    pub pitch: i32,
    pub start_time: i64,
    pub duration: i64,
    pub pitchbend: Vec<PitchPoint>,
    pub flags: String,
    pub velocity: i64,
    pub volume: i64,
    pub modulation: i64,
}

/// What the renderer needs of a note: nonnegative bounded times, bend
/// breakpoints sorted by offset with bounded values, a bounded volume.
pub open spec fn note_wf(n: Note) -> bool {
    &&& 0 <= n.start_time <= crate::MAX_TIME_US
    &&& 0 <= n.duration <= crate::MAX_TIME_US
    &&& -128 <= n.pitch <= 128
    &&& 0 <= n.volume <= VOLUME_FX_LIMIT
    &&& forall|i: int|
        0 <= i < n.pitchbend@.len() ==> {
            &&& -crate::MAX_TIME_US <= (#[trigger] n.pitchbend@[i]).offset <= crate::MAX_TIME_US
            &&& -crate::FX_VAL_LIMIT <= n.pitchbend@[i].value <= crate::FX_VAL_LIMIT
        }
    &&& forall|i: int, j: int|
        0 <= i <= j < n.pitchbend@.len() ==> (#[trigger] n.pitchbend@[i]).offset
            <= (#[trigger] n.pitchbend@[j]).offset
}

/// A whole synthesis request.  The tempo is informational: rendering uses the
/// notes' already-resolved microsecond fields.
#[derive(Clone, Debug)]
pub struct Score {
    pub notes: Vec<Note>,
    pub tempo: i64,
}

/// A silence marker: the alias is `r` or `R`; such a note is never rendered.
pub open spec fn is_silence(alias: Seq<char>) -> bool {
    alias.len() == 1 && (alias[0] == 'r' || alias[0] == 'R')
}

/// Whether `alias` marks a silence note.
pub fn alias_is_silence(alias: &String) -> (r: bool)
    ensures
        r == is_silence(alias@),
{
    let s = alias.as_str();
    if s.unicode_len() == 1 {
        let c = s.get_char(0);
        c == 'r' || c == 'R'
    } else {
        false
    }
}

} // verus!
