//! The timeline compositor: the engine's tables, alias resolution against
//! the pitch-prefix table, the per-note planning pass over the score
//! (adjacency, silence skipping, placement), additive accumulation into the
//! master buffer, and the final peak limiter.

use vstd::prelude::*;
use crate::error::SynthError;
use crate::features::WorldFeatures;
use crate::flags::spec_flags;
use crate::oto::{OtoEntry, OtoSpecEntry, OtoMap, PrefixMap, deep_oto, entry_bounded};
use crate::render::{NotePlan, prepare_note, plan_matches, plan_wf, SAMPLE_LIMIT};
use crate::score::{Note, Score, note_wf, is_silence, alias_is_silence};
use crate::strmap::StrMap;
use crate::timemap::smax;
use crate::util::{mul_i128, spec_abs, tdiv, tdiv_i128};
use vstd::string::StringExecFns;

verus! {

/// Largest magnitude the master buffer ever holds; additions saturate here.
pub const MASTER_LIMIT: i64 = 0x4000000000000000;

/// The synthesis session: the timing table, the pitch-prefix table and the
/// cache of analysed features, loaded once and read-only while rendering.
pub struct WSynthEngine {
    pub oto: OtoMap,
    pub prefix_map: PrefixMap,
    pub features_cache: StrMap<WorldFeatures>,
}

impl WSynthEngine {
    /// Loaded tables the planner can rely on: every timing entry within the
    /// accepted time range, every cached feature record well-formed.
    pub open spec fn wf(self) -> bool {
        &&& forall|k: Seq<char>|
            deep_oto(self.oto@).contains_key(k) ==> entry_bounded(
                #[trigger] deep_oto(self.oto@)[k],
            )
        &&& forall|k: Seq<char>|
            self.features_cache@.contains_key(k) ==> (#[trigger] self.features_cache@[k]).wf()
    }

    pub fn new() -> (r: Self)
        ensures
            r.wf(),
            r.oto@ == Map::<Seq<char>, OtoEntry>::empty(),
            r.prefix_map@ == Map::<int, Seq<char>>::empty(),
            r.features_cache@ == Map::<Seq<char>, WorldFeatures>::empty(),
    {
        let r = WSynthEngine {
            oto: StrMap::new(),
            prefix_map: PrefixMap::new(),
            features_cache: StrMap::new(),
        };
        proof {
            assert(deep_oto(r.oto@) =~= Map::<Seq<char>, OtoSpecEntry>::empty());
        }
        r
    }

    /// Caches one sample's features under its filename.
    pub fn cache_features(&mut self, filename: String, features: WorldFeatures)
        requires
            old(self).wf(),
            features.wf(),
        ensures
            final(self).wf(),
            final(self).features_cache@ == old(self).features_cache@.insert(filename@, features),
            final(self).oto@ == old(self).oto@,
            final(self).prefix_map@ == old(self).prefix_map@,
    {
        self.features_cache.insert(filename, features);
    }
}

/// The key the prefix table selects for a pitch: the largest at or below it.
pub open spec fn spec_best_key(pm: Map<int, Seq<char>>, pitch: int) -> int {
    choose|k: int|
        pm.contains_key(k) && k <= pitch && (forall|k2: int|
            pm.contains_key(k2) && k2 <= pitch ==> k2 <= k)
}

pub open spec fn spec_has_key_below(pm: Map<int, Seq<char>>, pitch: int) -> bool {
    exists|k: int| pm.contains_key(k) && k <= pitch
}

/// The alias a note plays under: the raw alias with the nearest-below prefix
/// suffix appended, when that key exists and the suffixed alias has a timing
/// entry; the raw alias otherwise — in particular always, under an empty
/// prefix table.
pub open spec fn spec_resolve_alias(
    alias: Seq<char>,
    pitch: int,
    pm: Map<int, Seq<char>>,
    timing: Set<Seq<char>>,
) -> Seq<char> {
    if spec_has_key_below(pm, pitch) {
        let cand = alias + pm[spec_best_key(pm, pitch)];
        if timing.contains(cand) {
            cand
        } else {
            alias
        }
    } else {
        alias
    }
}

/// Resolves a note's alias against the prefix and timing tables, exactly as
/// [`spec_resolve_alias`] states.
pub fn resolve_alias(note: &Note, prefix_map: &PrefixMap, oto_map: &OtoMap) -> (r: String)
    ensures
        r@ == spec_resolve_alias(
            note.alias@,
            note.pitch as int,
            prefix_map@,
            deep_oto(oto_map@).dom(),
        ),
{
    match prefix_map.best_at_or_below(note.pitch) {
        Some((key, suffix)) => {
            proof {
                let kk = spec_best_key(prefix_map@, note.pitch as int);
                assert(spec_has_key_below(prefix_map@, note.pitch as int));
                assert(prefix_map@.contains_key(kk as int) && kk <= note.pitch as int
                    && (forall|k2: int|
                    prefix_map@.contains_key(k2) && k2 <= note.pitch as int ==> k2 <= kk)) by {
                    assert(prefix_map@.contains_key(key as int) && key <= note.pitch as int && (
                    forall|k2: int|
                        prefix_map@.contains_key(k2) && k2 <= note.pitch as int ==> k2
                            <= key as int));
                }
                assert(kk == key as int);
            }
            let cand = note.alias.clone().concat(suffix.as_str());
            if oto_map.contains_key(&cand) {
                proof {
                    assert(deep_oto(oto_map@).dom().contains(cand@));
                }
                cand
            } else {
                proof {
                    assert(!deep_oto(oto_map@).dom().contains(cand@));
                }
                note.alias.clone()
            }
        },
        None => {
            proof {
                assert(!spec_has_key_below(prefix_map@, note.pitch as int));
            }
            note.alias.clone()
        },
    }
}

/// Overlap length carried over from the previous note: its timing entry's
/// overlap when the previous note ends exactly where this one starts, 0
/// otherwise or when the previous note has no entry.
pub open spec fn spec_prev_overlap(
    notes: Seq<Note>,
    i: int,
    pm: Map<int, Seq<char>>,
    om: Map<Seq<char>, OtoSpecEntry>,
) -> int {
    if i <= 0 || notes[i - 1].start_time + notes[i - 1].duration != notes[i].start_time {
        0
    } else {
        let pa = spec_resolve_alias(notes[i - 1].alias@, notes[i - 1].pitch as int, pm, om.dom());
        if om.contains_key(pa) {
            om[pa].overlap
        } else {
            0
        }
    }
}

/// Whether the following note starts exactly where this one ends.
pub open spec fn spec_has_next(notes: Seq<Note>, i: int) -> bool {
    i + 1 < notes.len() && notes[i].start_time + notes[i].duration == notes[i + 1].start_time
}

/// Master-buffer length: the score's span plus a two-second tail, in whole
/// samples rounded up.
pub open spec fn spec_master_len(notes: Seq<Note>) -> int {
    ((notes.last().start_time + notes.last().duration + 2000000) * 441 + 9999) / 10000
}

/// Whether the compositor renders note `i` at all: not a silence marker, its
/// alias resolves to a timing entry, the entry's features are cached, and
/// its flag string parses.
#[verifier::opaque]
pub open spec fn spec_note_renders(
    notes: Seq<Note>,
    i: int,
    pm: Map<int, Seq<char>>,
    om: Map<Seq<char>, OtoSpecEntry>,
    cache: Map<Seq<char>, WorldFeatures>,
) -> bool {
    let alias = spec_resolve_alias(notes[i].alias@, notes[i].pitch as int, pm, om.dom());
    &&& !is_silence(notes[i].alias@)
    &&& om.contains_key(alias)
    &&& cache.contains_key(om[alias].filename)
    &&& spec_flags(notes[i].flags@) is Some
}

/// One planned render: which note, its prepared plan, and the master-buffer
/// sample its buffer starts at (negative: that many samples are dropped).
pub struct NoteJob {
    pub index: usize,
    pub plan: NotePlan,
    pub start_smp: i64,
}

/// One skipped note and why it was skipped.
pub struct SkippedNote {
    pub index: usize,
    pub reason: SynthError,
}

/// What the planning pass promises of one job.
pub open spec fn job_ok(job: NoteJob, notes: Seq<Note>, engine: WSynthEngine) -> bool {
    let om = deep_oto(engine.oto@);
    let pm = engine.prefix_map@;
    let i = job.index as int;
    let alias = spec_resolve_alias(notes[i].alias@, notes[i].pitch as int, pm, om.dom());
    &&& 0 <= i < notes.len()
    &&& spec_note_renders(notes, i, pm, om, engine.features_cache@)
    &&& plan_matches(
        job.plan,
        notes[i],
        om[alias],
        engine.features_cache@[om[alias].filename],
        spec_prev_overlap(notes, i, pm, om),
        spec_has_next(notes, i),
    )
    &&& plan_wf(job.plan)
    &&& job.start_smp == crate::spec_us_to_samples(notes[i].start_time - om[alias].preutterance)
}

/// Overlap the previous adjacent note carries into note `i`.
fn prev_overlap_of(engine: &WSynthEngine, score: &Score, i: usize) -> (r: i64)
    requires
        engine.wf(),
        forall|k: int| 0 <= k < score.notes@.len() ==> note_wf(#[trigger] score.notes@[k]),
        i < score.notes@.len(),
    ensures
        r as int == spec_prev_overlap(
            score.notes@,
            i as int,
            engine.prefix_map@,
            deep_oto(engine.oto@),
        ),
        -crate::MAX_TIME_US <= r <= crate::MAX_TIME_US,
{
    let ghost om = deep_oto(engine.oto@);
    let note = &score.notes[i];
    let mut prev_overlap: i64 = 0;
    if i > 0 {
        let prev = &score.notes[i - 1];
        if prev.start_time + prev.duration == note.start_time {
            let pa = resolve_alias(prev, &engine.prefix_map, &engine.oto);
            match engine.oto.get(&pa) {
                Some(pe) => {
                    prev_overlap = pe.overlap;
                    proof {
                        assert(om.contains_key(pa@));
                        assert(om[pa@] == pe.deep_view());
                    }
                },
                None => {
                },
            }
        }
    }
    prev_overlap
}

/// Resolves and prepares one non-silent note: its timing entry, features
/// and plan, or the reason it is skipped.
fn plan_one(
    engine: &WSynthEngine,
    score: &Score,
    i: usize,
    prev_overlap: i64,
    has_next: bool,
) -> (r: Result<NoteJob, SkippedNote>)
    requires
        engine.wf(),
        forall|k: int| 0 <= k < score.notes@.len() ==> note_wf(#[trigger] score.notes@[k]),
        i < score.notes@.len(),
        !is_silence(score.notes@[i as int].alias@),
        prev_overlap as int == spec_prev_overlap(
            score.notes@,
            i as int,
            engine.prefix_map@,
            deep_oto(engine.oto@),
        ),
        -crate::MAX_TIME_US <= prev_overlap <= crate::MAX_TIME_US,
        has_next == spec_has_next(score.notes@, i as int),
    ensures
        match r {
            Ok(job) => job.index == i && job_ok(job, score.notes@, *engine),
            Err(s) => s.index == i && !spec_note_renders(
                score.notes@,
                i as int,
                engine.prefix_map@,
                deep_oto(engine.oto@),
                engine.features_cache@,
            ),
        },
{
    proof {
        reveal(spec_note_renders);
    }
    let ghost om = deep_oto(engine.oto@);
    let ghost pm = engine.prefix_map@;
    let note = &score.notes[i];
    let alias = resolve_alias(note, &engine.prefix_map, &engine.oto);
    match engine.oto.get(&alias) {
        None => Err(SkippedNote { index: i, reason: SynthError::EntryMissing }),
        Some(entry) => {
            proof {
                assert(om.contains_key(alias@) && om[alias@] == entry.deep_view());
            }
            match engine.features_cache.get(&entry.filename) {
                None => Err(SkippedNote { index: i, reason: SynthError::FeatureMissing }),
                Some(feats) => {
                    match prepare_note(note, entry, feats, prev_overlap, has_next) {
                        Err(_) => Err(SkippedNote { index: i, reason: SynthError::BadFlags }),
                        Ok(plan) => {
                            let start_smp = crate::us_to_samples(
                                note.start_time - entry.preutterance,
                            );
                            Ok(NoteJob { index: i, plan, start_smp })
                        },
                    }
                },
            }
        },
    }
}

/// Plans a whole score: walks the notes in order, computes adjacency from
/// the raw note positions, skips silence markers outright, resolves each
/// remaining note and prepares its render, recording unresolvable notes as
/// skipped.  Every note that can render is planned; an empty score is the
/// one whole-request error.
#[verifier::rlimit(100)]
pub fn plan_score(engine: &WSynthEngine, score: &Score) -> (r: Result<
    (usize, Vec<NoteJob>, Vec<SkippedNote>),
    SynthError,
>)
    requires
        engine.wf(),
        forall|i: int| 0 <= i < score.notes@.len() ==> note_wf(#[trigger] score.notes@[i]),
        score.notes@.len() > 0 ==> spec_master_len(score.notes@) <= usize::MAX,
    ensures
        r is Err <==> score.notes@.len() == 0,
        r matches Err(e) ==> e == SynthError::EmptyScore,
        r matches Ok(ok) ==> {
            &&& ok.0 == spec_master_len(score.notes@)
            &&& forall|k: int|
                0 <= k < ok.1@.len() ==> job_ok(#[trigger] ok.1@[k], score.notes@, *engine)
            &&& forall|i: int|
                0 <= i < score.notes@.len() && spec_note_renders(
                    score.notes@,
                    i,
                    engine.prefix_map@,
                    deep_oto(engine.oto@),
                    engine.features_cache@,
                ) ==> exists|k: int| 0 <= k < ok.1@.len() && (#[trigger] ok.1@[k]).index == i
            &&& forall|k: int| 0 <= k < ok.2@.len() ==> (#[trigger] ok.2@[k]).index < score.notes@.len()
        },
{
    let n = score.notes.len();
    if n == 0 {
        return Err(SynthError::EmptyScore);
    }
    let last = &score.notes[n - 1];
    let span_us = last.start_time + last.duration + 2000000;
    let master_len = ((((span_us as u64) * 441) + 9999) / 10000) as usize;
    proof {
        assert(master_len == spec_master_len(score.notes@));
    }
    let mut jobs: Vec<NoteJob> = Vec::new();
    let mut skips: Vec<SkippedNote> = Vec::new();
    let ghost om = deep_oto(engine.oto@);
    let ghost pm = engine.prefix_map@;
    let mut i: usize = 0;
    while i < n
        invariant
            i <= n,
            n == score.notes@.len(),
            engine.wf(),
            om == deep_oto(engine.oto@),
            pm == engine.prefix_map@,
            forall|k: int| 0 <= k < n ==> note_wf(#[trigger] score.notes@[k]),
            forall|k: int| 0 <= k < jobs@.len() ==> job_ok(#[trigger] jobs@[k], score.notes@, *engine),
            forall|k: int|
                0 <= k < i && spec_note_renders(score.notes@, k, pm, om, engine.features_cache@)
                    ==> exists|j: int| 0 <= j < jobs@.len() && (#[trigger] jobs@[j]).index == k,
            forall|k: int| 0 <= k < skips@.len() ==> (#[trigger] skips@[k]).index < n,
        decreases n - i,
    {
        let note = &score.notes[i];
        let prev_overlap = prev_overlap_of(engine, score, i);
        let has_next = i + 1 < n && {
            let nx = &score.notes[i + 1];
            note.start_time + note.duration == nx.start_time
        };
        if alias_is_silence(&note.alias) {
            proof {
                reveal(spec_note_renders);
                assert(!spec_note_renders(score.notes@, i as int, pm, om, engine.features_cache@));
            }
            i += 1;
            continue ;
        }
        proof {
            assert(has_next == spec_has_next(score.notes@, i as int));
        }
        match plan_one(engine, score, i, prev_overlap, has_next) {
            Ok(job) => {
                let ghost jobs0 = jobs@;
                jobs.push(job);
                proof {
                    assert(jobs@[jobs0.len() as int].index == i as int);
                    assert forall|k: int|
                        0 <= k < i + 1 && spec_note_renders(
                            score.notes@,
                            k,
                            pm,
                            om,
                            engine.features_cache@,
                        ) implies exists|j: int|
                        0 <= j < jobs@.len() && (#[trigger] jobs@[j]).index == k by {
                        if k < i {
                            let j = choose|j: int|
                                0 <= j < jobs0.len() && (#[trigger] jobs0[j]).index == k;
                            assert(jobs@[j].index == k);
                        } else {
                            assert(jobs@[jobs0.len() as int].index == k);
                        }
                    }
                }
            },
            Err(skip) => {
                skips.push(skip);
            },
        }
        i += 1;
    }
    let ghost jseq = jobs@;
    let result = (master_len, jobs, skips);
    proof {
        assert(result.1@ == jseq);
        assert forall|ii: int|
            0 <= ii < score.notes@.len() && spec_note_renders(
                score.notes@,
                ii,
                pm,
                om,
                engine.features_cache@,
            ) implies exists|k: int|
            0 <= k < result.1@.len() && (#[trigger] result.1@[k]).index == ii by {
            let j = choose|j: int| 0 <= j < jseq.len() && (#[trigger] jseq[j]).index == ii;
            assert(result.1@[j].index == ii);
        }
    }
    Ok(result)
}

/// Saturating addition within the master buffer's range.
pub open spec fn sat_add_amp(a: int, b: int) -> int {
    let s = a + b;
    if s > MASTER_LIMIT {
        MASTER_LIMIT as int
    } else if s < -MASTER_LIMIT {
        -MASTER_LIMIT as int
    } else {
        s
    }
}

/// What a rendered buffer placed at `start` contributes at master index `j`.
pub open spec fn spec_contrib(rendered: Seq<i64>, start: int, j: int) -> int {
    if start <= j < start + rendered.len() {
        rendered[j - start] as int
    } else {
        0
    }
}

/// Adds a rendered note into the master buffer at its start sample.  Samples
/// before the start (or before the buffer, for a negative start) are left
/// untouched; indices past the buffer's end are dropped.
pub fn accumulate(master: &mut Vec<i64>, rendered: &Vec<i64>, start_smp: i64)
    requires
        forall|j: int|
            0 <= j < old(master)@.len() ==> -MASTER_LIMIT <= #[trigger] old(master)@[j]
                <= MASTER_LIMIT,
        forall|j: int|
            0 <= j < rendered@.len() ==> -SAMPLE_LIMIT <= #[trigger] rendered@[j] <= SAMPLE_LIMIT,
        -0x4000000000000 <= start_smp <= 0x4000000000000,
        rendered@.len() <= 0x4000000000000,
        old(master)@.len() <= 0x4000000000000,
    ensures
        final(master)@.len() == old(master)@.len(),
        forall|j: int|
            0 <= j < final(master)@.len() ==> #[trigger] final(master)@[j] == sat_add_amp(
                old(master)@[j] as int,
                spec_contrib(rendered@, start_smp as int, j),
            ),
        forall|j: int|
            0 <= j < final(master)@.len() ==> -MASTER_LIMIT <= #[trigger] final(master)@[j]
                <= MASTER_LIMIT,
{
    let ghost orig = master@;
    let total = master.len();
    let m = rendered.len();
    proof {
        assert(forall|j: int|
            0 <= j < orig.len() && !(start_smp <= j < start_smp + m) ==> sat_add_amp(
                #[trigger] orig[j] as int,
                spec_contrib(rendered@, start_smp as int, j),
            ) == orig[j]);
    }
    if m == 0 || start_smp >= master.len() as i64 || start_smp + (m as i64) <= 0 {
        return ;
    }
    let lo: usize = if start_smp >= 0 {
        start_smp as usize
    } else {
        0
    };
    let off: usize = if start_smp >= 0 {
        0
    } else {
        (-start_smp) as usize
    };
    let mut c: usize = 0;
    while lo + c < total && off + c < m
        invariant
            total == master@.len() == orig.len(),
            m == rendered@.len() <= 0x4000000000000,
            -0x4000000000000 <= start_smp <= 0x4000000000000,
            lo as int == smax(start_smp as int, 0),
            off as int == lo - start_smp,
            lo + c <= total,
            off + c <= m,
            forall|k: int|
                0 <= k < orig.len() ==> -MASTER_LIMIT <= #[trigger] orig[k] <= MASTER_LIMIT,
            forall|k: int|
                0 <= k < m ==> -SAMPLE_LIMIT <= #[trigger] rendered@[k] <= SAMPLE_LIMIT,
            forall|k: int|
                0 <= k < total && !(lo <= k < lo + c) ==> #[trigger] master@[k] == orig[k],
            forall|k: int|
                lo <= k < lo + c ==> #[trigger] master@[k] == sat_add_amp(
                    orig[k] as int,
                    rendered@[k - start_smp] as int,
                ),
            forall|k: int|
                0 <= k < total ==> -MASTER_LIMIT <= #[trigger] master@[k] <= MASTER_LIMIT,
        decreases total - (lo + c),
    {
        let t = lo + c;
        let s = master[t] + rendered[off + c];
        let v = if s > MASTER_LIMIT {
            MASTER_LIMIT
        } else if s < -MASTER_LIMIT {
            -MASTER_LIMIT
        } else {
            s
        };
        master.set(t, v);
        c += 1;
    }
    proof {
        assert forall|j: int| 0 <= j < master@.len() implies #[trigger] master@[j] == sat_add_amp(
            orig[j] as int,
            spec_contrib(rendered@, start_smp as int, j),
        ) by {
            if lo <= j < lo + c {
                assert(spec_contrib(rendered@, start_smp as int, j) == rendered@[j - start_smp]);
            } else {
                assert(spec_contrib(rendered@, start_smp as int, j) == 0);
            }
        }
    }
}

/// Peak magnitude of a buffer; 0 when empty.
pub open spec fn spec_peak(s: Seq<i64>) -> int
    decreases s.len(),
{
    if s.len() == 0 {
        0
    } else {
        smax(spec_peak(s.drop_last()), spec_abs(s.last() as int))
    }
}

/// No sample exceeds the peak.
pub proof fn lemma_peak_bounds(s: Seq<i64>, j: int)
    requires
        0 <= j < s.len(),
    ensures
        spec_abs(s[j] as int) <= spec_peak(s),
        spec_peak(s) >= 0,
    decreases s.len(),
{
    if j + 1 < s.len() {
        lemma_peak_bounds(s.drop_last(), j);
    }
}

/// The single global limiter: a buffer whose peak magnitude exceeds unity is
/// scaled down by exactly `1 / peak`; a buffer already within unity passes
/// unchanged.  Afterwards every sample is within unity.
pub fn normalize_master(master: &mut Vec<i64>)
    requires
        forall|j: int|
            0 <= j < old(master)@.len() ==> -MASTER_LIMIT <= #[trigger] old(master)@[j]
                <= MASTER_LIMIT,
    ensures
        final(master)@.len() == old(master)@.len(),
        spec_peak(old(master)@) <= crate::FX_ONE ==> final(master)@ == old(master)@,
        spec_peak(old(master)@) > crate::FX_ONE ==> forall|j: int|
            0 <= j < final(master)@.len() ==> #[trigger] final(master)@[j] == tdiv(
                old(master)@[j] * crate::FX_ONE,
                spec_peak(old(master)@),
            ),
        forall|j: int|
            0 <= j < final(master)@.len() ==> -crate::FX_ONE <= #[trigger] final(master)@[j]
                <= crate::FX_ONE,
{
    let ghost orig = master@;
    let total = master.len();
    let mut peak: i64 = 0;
    let mut i: usize = 0;
    while i < total
        invariant
            i <= total,
            total == master@.len(),
            master@ == orig,
            forall|k: int| 0 <= k < total ==> -MASTER_LIMIT <= #[trigger] orig[k] <= MASTER_LIMIT,
            peak == spec_peak(orig.take(i as int)),
            0 <= peak <= MASTER_LIMIT,
        decreases total - i,
    {
        let a = if master[i] >= 0 {
            master[i]
        } else {
            -master[i]
        };
        proof {
            assert(orig.take(i + 1int).drop_last() =~= orig.take(i as int));
        }
        if a > peak {
            peak = a;
        }
        i += 1;
    }
    proof {
        assert(orig.take(total as int) =~= orig);
    }
    if peak <= crate::FX_ONE {
        proof {
            assert forall|k: int| 0 <= k < total implies -crate::FX_ONE <= #[trigger] master@[k]
                <= crate::FX_ONE by {
                lemma_peak_bounds(orig, k);
            }
        }
        return ;
    }
    let mut j: usize = 0;
    while j < total
        invariant
            j <= total,
            total == master@.len() == orig.len(),
            peak == spec_peak(orig) > crate::FX_ONE,
            forall|k: int| 0 <= k < total ==> -MASTER_LIMIT <= #[trigger] orig[k] <= MASTER_LIMIT,
            forall|k: int| j <= k < total ==> #[trigger] master@[k] == orig[k],
            forall|k: int|
                0 <= k < j ==> #[trigger] master@[k] == tdiv(
                    orig[k] * crate::FX_ONE,
                    spec_peak(orig),
                ),
            forall|k: int|
                0 <= k < j ==> -crate::FX_ONE <= #[trigger] master@[k] <= crate::FX_ONE,
        decreases total - j,
    {
        proof {
            lemma_peak_bounds(orig, j as int);
            crate::util::lemma_tdiv_abs(orig[j as int] as int * crate::FX_ONE as int, peak as int);
            assert(spec_abs(orig[j as int] as int * crate::FX_ONE as int) == spec_abs(
                orig[j as int] as int,
            ) * crate::FX_ONE as int && spec_abs(orig[j as int] as int) * crate::FX_ONE as int
                <= peak as int * crate::FX_ONE as int) by (nonlinear_arith)
                requires
                    spec_abs(orig[j as int] as int) <= peak as int,
                    peak as int > 0,
            ;
            vstd::arithmetic::div_mod::lemma_div_is_ordered(
                spec_abs(orig[j as int] as int * crate::FX_ONE as int),
                peak as int * crate::FX_ONE as int,
                peak as int,
            );
            vstd::arithmetic::div_mod::lemma_div_multiples_vanish(
                crate::FX_ONE as int,
                peak as int,
            );
        }
        let num = mul_i128(master[j], crate::FX_ONE);
        let v = tdiv_i128(num, peak as i128);
        master.set(j, v);
        j += 1;
    }
}

} // verus!
