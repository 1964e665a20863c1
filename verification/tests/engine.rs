use w_synth::compose::{accumulate, normalize_master, plan_score, resolve_alias, WSynthEngine};
use w_synth::envelope::apply_crossfade_envelopes;
use w_synth::error::SynthError;
use w_synth::features::WorldFeatures;
use w_synth::interp::akima_sample;
use w_synth::oto::{parse_oto_ini, parse_prefix_map, OtoEntry, PrefixMap};
use w_synth::pitchcurve::{normalize_pitchbend, pitch_grid};
use w_synth::render::{envelope_geometry, finish_note, prepare_note};
use w_synth::score::{Note, PitchPoint, Score};
use w_synth::timemap::map_time_us;
use w_synth::FX_ONE;

fn plain_note(alias: &str, pitch: i32, start_ms: i64, duration_ms: i64) -> Note {
    Note {
        alias: alias.to_string(),
        pitch,
        start_time: start_ms * 1000,
        duration: duration_ms * 1000,
        pitchbend: Vec::new(),
        flags: String::new(),
        velocity: 100 * FX_ONE,
        volume: FX_ONE,
        modulation: 0,
    }
}

fn flat_features(frames: usize) -> WorldFeatures {
    let f0 = vec![220 * FX_ONE; frames];
    let off = vec![0i64; frames];
    let mgc = vec![vec![FX_ONE / 4; 4]; frames];
    let bap = vec![vec![0i64; 2]; frames];
    WorldFeatures::build(220 * FX_ONE, f0, off, mgc, bap).unwrap()
}

fn quarter_sine_ramp(n: usize) -> Vec<i64> {
    let mut g = Vec::with_capacity(n);
    for i in 0..n {
        let ratio = if n > 1 { i as f64 / (n - 1) as f64 } else { 0.0 };
        let v = (std::f64::consts::PI / 2.0 * ratio).sin();
        g.push((v * FX_ONE as f64).round() as i64);
    }
    g
}

#[test]
fn alias_resolution_picks_nearest_below_key() {
    let pm = parse_prefix_map("60=B\n64=C\n").unwrap();
    let oto = parse_oto_ini("a.wav=aB,0,0,0,0,0\n").unwrap();
    let note = plain_note("a", 62, 0, 500);
    assert_eq!(resolve_alias(&note, &pm, &oto), "aB");
    let oto2 = parse_oto_ini("a.wav=a,0,0,0,0,0\n").unwrap();
    assert_eq!(resolve_alias(&note, &pm, &oto2), "a");
    let empty = PrefixMap::new();
    assert_eq!(resolve_alias(&note, &empty, &oto), "a");
}

#[test]
fn empty_pitchbend_normalizes_to_zero_anchors() {
    let pb: Vec<PitchPoint> = Vec::new();
    let n = normalize_pitchbend(&pb, 1_000_000);
    assert_eq!(n.len(), 2);
    assert_eq!((n[0].offset, n[0].value), (0, 0));
    assert_eq!((n[1].offset, n[1].value), (1_000_000, 0));
    let grid = pitch_grid(&pb, 1_000_000);
    assert_eq!(grid.len(), 200);
    assert!(grid.iter().all(|v| *v == 0));
}

#[test]
fn pitch_grid_interpolates_between_breakpoints() {
    let pb = vec![
        PitchPoint { offset: 0, value: 0 },
        PitchPoint { offset: 10_000, value: 100 * FX_ONE },
    ];
    let grid = pitch_grid(&pb, 20_000);
    // frame 1 sits at 5 ms, halfway between the breakpoints
    assert_eq!(grid[0], 0);
    assert_eq!(grid[1], 50 * FX_ONE);
    assert_eq!(grid[2], 100 * FX_ONE);
    // the appended zero anchor ramps the curve back down over the remainder
    assert_eq!(grid[3], 50 * FX_ONE);
}

#[test]
fn time_map_follows_the_three_segments() {
    let e = OtoEntry {
        filename: "a.wav".to_string(),
        alias: "a".to_string(),
        offset: 10_000,
        consonant: 60_000,
        cutoff: 400_000,
        preutterance: 20_000,
        overlap: 30_000,
    };
    let flen = 500_000;
    let dur = 100_000;
    assert_eq!(map_time_us(&e, flen, dur, 0), 10_000);
    assert_eq!(map_time_us(&e, flen, dur, 10_000), 20_000);
    assert_eq!(map_time_us(&e, flen, dur, 20_000), 30_000);
    assert_eq!(map_time_us(&e, flen, dur, 40_000), 50_000);
    assert_eq!(map_time_us(&e, flen, dur, 60_000), 70_000);
    assert_eq!(map_time_us(&e, flen, dur, 80_000), 90_000);
    // monotone along the output timeline
    let mut prev = i64::MIN;
    for t in 0..140 {
        let v = map_time_us(&e, flen, dur, t * 1000);
        assert!(v >= prev);
        prev = v;
    }
}

#[test]
fn time_map_is_bounded_by_the_cutoff() {
    let e = OtoEntry {
        filename: "a.wav".to_string(),
        alias: "a".to_string(),
        offset: 10_000,
        consonant: 60_000,
        cutoff: 0,
        preutterance: 20_000,
        overlap: 0,
    };
    // a cutoff before the consonant boundary freezes the tail there
    assert_eq!(map_time_us(&e, 500_000, 100_000, 120_000), 70_000);
}

#[test]
fn akima_passes_through_knots() {
    let y = vec![0, FX_ONE, 2 * FX_ONE, FX_ONE, 0];
    for k in 0..y.len() {
        assert_eq!(akima_sample(&y, (k as i64) * FX_ONE), y[k]);
    }
    // linear data interpolates linearly
    let lin = vec![0, FX_ONE, 2 * FX_ONE];
    assert_eq!(akima_sample(&lin, FX_ONE / 2), FX_ONE / 2);
    // constant data stays constant
    let c = vec![7 * FX_ONE; 9];
    assert_eq!(akima_sample(&c, 3 * FX_ONE + 12345), 7 * FX_ONE);
}

#[test]
fn crossfade_gains_are_complementary_and_constant_power() {
    let n = 4410usize;
    let ramp = quarter_sine_ramp(n);
    // fade-in read forward
    let mut rising = vec![FX_ONE; n];
    apply_crossfade_envelopes(&mut rising, &ramp, 0, &Vec::new());
    // fade-out read mirrored
    let mut falling = vec![FX_ONE; n];
    apply_crossfade_envelopes(&mut falling, &Vec::new(), 0, &ramp);
    for i in 0..n {
        assert_eq!(rising[i], ramp[i]);
        assert_eq!(falling[i], ramp[n - 1 - i]);
        let a = rising[i] as f64 / FX_ONE as f64;
        let b = falling[i] as f64 / FX_ONE as f64;
        assert!((a * a + b * b - 1.0).abs() < 1e-4);
    }
}

#[test]
fn silence_notes_contribute_nothing() {
    let mut engine = WSynthEngine::new();
    engine.oto = parse_oto_ini("a.wav=r,0,0,0,0,0\n").unwrap();
    engine.cache_features("a.wav".to_string(), flat_features(100));
    let score = Score { notes: vec![plain_note("r", 60, 0, 500), plain_note("R", 60, 500, 500)], tempo: 120 };
    let (master_len, jobs, skips) = plan_score(&engine, &score).unwrap();
    assert!(jobs.is_empty());
    assert!(skips.is_empty());
    let master = vec![0i64; master_len];
    assert!(master.iter().all(|s| *s == 0));
}

#[test]
fn per_note_failures_skip_without_aborting() {
    let mut engine = WSynthEngine::new();
    engine.oto = parse_oto_ini("a.wav=a,0,0,0,0,0\nmissing.wav=m,0,0,0,0,0\n").unwrap();
    engine.cache_features("a.wav".to_string(), flat_features(100));
    let mut bad_flags = plain_note("a", 60, 0, 500);
    bad_flags.flags = "123".to_string();
    let score = Score {
        notes: vec![plain_note("x", 60, 0, 500), plain_note("m", 60, 500, 500), bad_flags],
        tempo: 120,
    };
    let (_len, jobs, skips) = plan_score(&engine, &score).unwrap();
    assert!(jobs.is_empty());
    assert_eq!(skips.len(), 3);
    assert_eq!(skips[0].reason, SynthError::EntryMissing);
    assert_eq!(skips[1].reason, SynthError::FeatureMissing);
    assert_eq!(skips[2].reason, SynthError::BadFlags);
}

#[test]
fn empty_score_aborts_the_request() {
    let engine = WSynthEngine::new();
    let score = Score { notes: Vec::new(), tempo: 120 };
    assert!(matches!(plan_score(&engine, &score), Err(SynthError::EmptyScore)));
}

#[test]
fn single_note_end_to_end() {
    let mut engine = WSynthEngine::new();
    engine.oto = parse_oto_ini("a.wav=a,0,0,0,0,0\n").unwrap();
    engine.cache_features("a.wav".to_string(), flat_features(200));
    let score = Score { notes: vec![plain_note("a", 60, 0, 500)], tempo: 120 };
    let (master_len, jobs, _skips) = plan_score(&engine, &score).unwrap();
    // round((500 + 2000) / 1000 * 44100) samples for the whole span
    assert_eq!(master_len, 110_250);
    assert_eq!(jobs.len(), 1);
    let job = &jobs[0];
    assert_eq!(job.start_smp, 0);
    // stand in for the vocoder: a flat half-scale harmonic line
    let rendered_len = 22_050usize;
    let harmonic = vec![FX_ONE / 2; rendered_len];
    let aperiodic = vec![0i64; rendered_len];
    let (fin, _out_start, fout) = envelope_geometry(&job.plan, rendered_len);
    assert_eq!(fin, 0);
    assert_eq!(fout, 0);
    let out = finish_note(&job.plan, &harmonic, &aperiodic, &Vec::new(), &Vec::new());
    assert_eq!(out.len(), rendered_len);
    assert_eq!(out[0], FX_ONE / 2);
    let mut master = vec![0i64; master_len];
    accumulate(&mut master, &out, job.start_smp);
    normalize_master(&mut master);
    assert!(master.iter().all(|s| s.abs() <= FX_ONE));
    assert_eq!(master[0], FX_ONE / 2);
    assert_eq!(master[master_len - 1], 0);
}

#[test]
fn placement_leaves_the_region_before_the_start_silent() {
    let rendered = vec![FX_ONE; 100];
    let mut master = vec![0i64; 1000];
    accumulate(&mut master, &rendered, 300);
    assert!(master[..300].iter().all(|s| *s == 0));
    assert!(master[300..400].iter().all(|s| *s == FX_ONE));
    assert!(master[400..].iter().all(|s| *s == 0));
    // negative start indices are dropped
    let mut m2 = vec![0i64; 50];
    accumulate(&mut m2, &rendered, -60);
    assert!(m2[..40].iter().all(|s| *s == FX_ONE));
    assert!(m2[40..].iter().all(|s| *s == 0));
}

#[test]
fn normalization_halves_a_double_peak_and_keeps_quiet_buffers() {
    let mut loud = vec![2 * FX_ONE, -FX_ONE, FX_ONE / 2, 0];
    normalize_master(&mut loud);
    assert_eq!(loud, vec![FX_ONE, -FX_ONE / 2, FX_ONE / 4, 0]);
    let quiet = vec![FX_ONE / 2, -FX_ONE / 4, FX_ONE];
    let mut q = quiet.clone();
    normalize_master(&mut q);
    assert_eq!(q, quiet);
}

#[test]
fn adjacent_notes_share_the_overlap() {
    let mut engine = WSynthEngine::new();
    engine.oto = parse_oto_ini("a.wav=a,0,50,400,10,100\n").unwrap();
    engine.cache_features("a.wav".to_string(), flat_features(200));
    let score = Score {
        notes: vec![plain_note("a", 60, 0, 500), plain_note("a", 62, 500, 500)],
        tempo: 120,
    };
    let (_len, jobs, _skips) = plan_score(&engine, &score).unwrap();
    assert_eq!(jobs.len(), 2);
    // the first note fades out over its own overlap, the second fades in
    // over the first's overlap
    assert_eq!(jobs[0].plan.fade_out_us, 100_000);
    assert_eq!(jobs[0].plan.fade_in_us, 0);
    assert_eq!(jobs[1].plan.fade_out_us, 0);
    assert_eq!(jobs[1].plan.fade_in_us, 100_000);
    // both render spans cover duration + overlap
    assert_eq!(jobs[0].plan.t_render.len(), 120);
}

#[test]
fn prepare_note_resamples_the_streams() {
    // pre-utterance spanning the whole note: the unstretched 1:1 segment
    let entry = OtoEntry {
        filename: "a.wav".to_string(),
        alias: "a".to_string(),
        offset: 0,
        consonant: 500_000,
        cutoff: 900_000,
        preutterance: 500_000,
        overlap: 0,
    };
    let feats = flat_features(200);
    let note = plain_note("a", 60, 0, 500);
    let plan = prepare_note(&note, &entry, &feats, 0, false).unwrap();
    assert_eq!(plan.t_render.len(), 100);
    assert_eq!(plan.voiced.len(), 100);
    assert!(plan.voiced.iter().all(|v| *v));
    // flags are empty: the contour is the plain pitch
    assert!(plan.midi.iter().all(|m| *m == 60 * FX_ONE));
    // unstretched 1:1 mapping: frame i reads source frame i
    assert_eq!(plan.t_render[0], 0);
    assert_eq!(plan.t_render[1], FX_ONE);
    assert_eq!(plan.mgc[0], vec![FX_ONE / 4; 4]);
    assert_eq!(plan.harmonic_mix, FX_ONE);
}

#[test]
fn breathiness_and_volume_scale_the_mix_exactly() {
    let mut engine = WSynthEngine::new();
    engine.oto = parse_oto_ini("a.wav=a,0,0,0,0,0\n").unwrap();
    engine.cache_features("a.wav".to_string(), flat_features(200));
    let mut note = plain_note("a", 60, 0, 500);
    // breathiness 0 doubles the harmonic weight; half volume
    note.flags = "B0".to_string();
    note.volume = FX_ONE / 2;
    let score = Score { notes: vec![note], tempo: 120 };
    let (_len, jobs, _skips) = plan_score(&engine, &score).unwrap();
    assert_eq!(jobs[0].plan.harmonic_mix, 2 * FX_ONE);
    let harmonic = vec![FX_ONE / 4; 100];
    let aperiodic = vec![FX_ONE / 8; 100];
    let out = finish_note(&jobs[0].plan, &harmonic, &aperiodic, &Vec::new(), &Vec::new());
    // (h * 2 + a) * 1/2 == 5/16
    assert_eq!(out[0], 5 * FX_ONE / 16);
}

#[test]
fn envelope_geometry_matches_the_overlap_and_body_end() {
    let mut engine = WSynthEngine::new();
    engine.oto = parse_oto_ini("a.wav=a,0,50,900,10,100\n").unwrap();
    engine.cache_features("a.wav".to_string(), flat_features(400));
    let score = Score {
        notes: vec![plain_note("a", 60, 0, 500), plain_note("a", 60, 500, 500)],
        tempo: 120,
    };
    let (_len, jobs, _skips) = plan_score(&engine, &score).unwrap();
    let total = 30_000usize;
    // first note: fade-out only, over its 100 ms overlap, from its body end
    // at 10 + 500 ms
    let (fin0, start0, fout0) = envelope_geometry(&jobs[0].plan, total);
    assert_eq!(fin0, 0);
    assert_eq!(start0, 22_491);
    assert_eq!(fout0, 4_410);
    // second note: fade-in only, over the previous note's 100 ms overlap
    let (fin1, _start1, fout1) = envelope_geometry(&jobs[1].plan, total);
    assert_eq!(fin1, 4_410);
    assert_eq!(fout1, 0);
}
