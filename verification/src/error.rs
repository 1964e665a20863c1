//! Error taxonomy.  Per-note failures are reported to the compositor, which
//! skips the note and carries on; only configuration and whole-request
//! failures abort the call that raised them.

use vstd::prelude::*;

verus! {

#[derive(Debug, Clone, Copy, PartialEq, Eq, Structural)]
pub enum SynthError {
    /// A timing or prefix table parsed to zero entries.
    EmptyConfig,
    /// A pitch name was neither an integer nor a note-name token.
    BadPitchName,
    /// A note's flag string failed to parse; the note is skipped.
    BadFlags,
    /// A timing entry's filename is absent from the feature cache; the note
    /// is skipped.
    FeatureMissing,
    /// The resolved alias has no timing entry; the note is skipped.
    EntryMissing,
    /// The request carried no notes; the whole call aborts.
    EmptyScore,
}

} // verus!
