use w_synth::error::SynthError;
use w_synth::flags::parse_flags;
use w_synth::oto::{parse_oto_ini, parse_prefix_map};
use w_synth::util::{pitch_parser, transpose};
use w_synth::us_to_samples;

#[test]
fn test_pitch() {
    let pitch = pitch_parser("C4").unwrap();
    assert_eq!(pitch, 60);
    let pitch = pitch_parser("C5").unwrap();
    assert_eq!(pitch, 72);
    let pitch = pitch_parser("A4").unwrap();
    assert_eq!(pitch, 69);
}

#[test]
fn pitch_names_cover_the_grammar() {
    assert_eq!(pitch_parser("12").unwrap(), 12);
    assert_eq!(pitch_parser("-5").unwrap(), -5);
    assert_eq!(pitch_parser("C#4").unwrap(), 61);
    assert_eq!(pitch_parser("B3").unwrap(), 59);
    assert_eq!(pitch_parser("E-1").unwrap(), 4);
    assert_eq!(pitch_parser("H4"), Err(SynthError::BadPitchName));
    assert_eq!(pitch_parser(""), Err(SynthError::BadPitchName));
    assert_eq!(pitch_parser("C"), Err(SynthError::BadPitchName));
    assert_eq!(pitch_parser("99999999999"), Err(SynthError::BadPitchName));
}

#[test]
fn oto_lines_parse_field_for_field() {
    let text = "a.wav=a,10,20.5,-30,93.4,5\nb.wav=b,1,2,3,4,5\n";
    let map = parse_oto_ini(text).unwrap();
    let e = map.get(&"a".to_string()).unwrap();
    assert_eq!(e.filename, "a.wav");
    assert_eq!(e.alias, "a");
    assert_eq!(e.offset, 10_000);
    assert_eq!(e.consonant, 20_500);
    assert_eq!(e.cutoff, -30_000);
    assert_eq!(e.preutterance, 93_400);
    assert_eq!(e.overlap, 5_000);
    assert!(map.get(&"b".to_string()).is_some());
}

#[test]
fn oto_skips_bad_lines_and_defaults_bad_numbers() {
    let text = "no equals sign\nx.wav= ,1,2,3,4,5\nshort.wav=s,1,2\nc.wav=c,oops,2,3,4,5\n";
    let map = parse_oto_ini(text).unwrap();
    assert!(map.get(&"s".to_string()).is_none());
    let c = map.get(&"c".to_string()).unwrap();
    assert_eq!(c.offset, 0);
    assert_eq!(c.consonant, 2_000);
}

#[test]
fn oto_duplicate_alias_overwrites() {
    let text = "a.wav=a,1,1,1,1,1\nb.wav=a,2,2,2,2,2\n";
    let map = parse_oto_ini(text).unwrap();
    let e = map.get(&"a".to_string()).unwrap();
    assert_eq!(e.filename, "b.wav");
    assert_eq!(e.offset, 2_000);
}

#[test]
fn oto_with_no_entries_is_a_config_error() {
    assert!(matches!(parse_oto_ini("junk\n"), Err(SynthError::EmptyConfig)));
    assert!(matches!(parse_oto_ini(""), Err(SynthError::EmptyConfig)));
}

#[test]
fn prefix_map_parses_names_and_numbers() {
    let pm = parse_prefix_map("C4=B\n64=C\nbad line\n").unwrap();
    assert_eq!(pm.best_at_or_below(62), Some((60, "B".to_string())));
    assert_eq!(pm.best_at_or_below(70), Some((64, "C".to_string())));
    assert_eq!(pm.best_at_or_below(59), None);
}

#[test]
fn prefix_map_with_no_entries_is_a_config_error() {
    assert!(matches!(parse_prefix_map("x\n"), Err(SynthError::EmptyConfig)));
}

#[test]
fn flags_recognize_pitch_offset_and_breathiness() {
    let f = parse_flags("t100B30").unwrap();
    assert_eq!(f.pitch_offset, 100);
    assert_eq!(f.breathiness, 30);
    let d = parse_flags("").unwrap();
    assert_eq!(d.pitch_offset, 0);
    assert_eq!(d.breathiness, 50);
    let g = parse_flags("g-5t-20").unwrap();
    assert_eq!(g.pitch_offset, -20);
    assert_eq!(g.breathiness, 50);
    let c = parse_flags("B200").unwrap();
    assert_eq!(c.breathiness, 100);
    let s = parse_flags("/t+50/").unwrap();
    assert_eq!(s.pitch_offset, 50);
    assert_eq!(parse_flags("5t"), Err(SynthError::BadFlags));
}

#[test]
fn transpose_swaps_axes() {
    let v = vec![vec![1, 2], vec![3, 4], vec![5, 6]];
    let t = transpose(v);
    assert_eq!(t, vec![vec![1, 3, 5], vec![2, 4, 6]]);
}

#[test]
fn microseconds_round_to_nearest_sample() {
    assert_eq!(us_to_samples(1_000_000), 44_100);
    assert_eq!(us_to_samples(500_000), 22_050);
    assert_eq!(us_to_samples(113), 5);
    assert_eq!(us_to_samples(11), 0);
    assert_eq!(us_to_samples(-1_000_000), -44_100);
}
