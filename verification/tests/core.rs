use rtracker::note::Note;
use rtracker::pattern::{Cell, Pattern, PatternError, PatternMetadata, Track};
use rtracker::piece::{
    default_pitch_shape, Envelope, Event, FxNode, Piece, PieceMetadata, Pitch, PitchShape, SampleLoopMode,
    SampleRef, ValidationError, VoiceDef,
};
use rtracker::presets::{get, library, names, Category};
use rtracker::single::Single;
use rtracker::song::{Song, SongMetadata};
use rtracker::table::{Replica, Table};

fn s(x: f32) -> Single {
    Single::of_bits(x.to_bits())
}

fn f(x: Single) -> f32 {
    f32::from_bits(x.bits)
}

fn hz(p: Pitch) -> f32 {
    match p {
        Pitch::Hz(x) => f(x),
        Pitch::Key(k) => 440.0 * (2.0_f32).powf((k as f32 - 69.0) / 12.0),
    }
}

fn event(voice: &str) -> Event {
    Event {
        t: 0,
        voice: voice.to_string(),
        freq: Some(Pitch::Hz(s(440.0))),
        dur: 100,
        amp: s(0.5),
        pan: s(0.0),
        envelope: Envelope::Gate,
        fx: vec![],
        pitch_ratio: None,
        pitch_env: None,
    }
}

fn piece(events: Vec<Event>) -> Piece {
    let mut voices = Table::new();
    voices.insert("sin".to_string(), VoiceDef::Sine { default_pan: s(0.0) });
    Piece {
        sample_rate: 48000,
        duration_samples: 1000,
        voices,
        samples: Table::new(),
        events,
        metadata: PieceMetadata::default(),
    }
}

fn empty_pattern() -> Pattern {
    let mut voices = Table::new();
    voices.insert("k".to_string(), VoiceDef::Sine { default_pan: s(0.0) });
    Pattern {
        sample_rate: 48000,
        tempo_bpm: s(120.0),
        lines_per_beat: 4,
        rows: 16,
        voices,
        samples: Table::new(),
        tracks: vec![],
        metadata: PatternMetadata::default(),
    }
}

fn kick_track(name: &str, voice: &str, cells: Vec<Cell>) -> Track {
    Track {
        name: name.to_string(),
        instrument: None,
        voice: Some(voice.to_string()),
        default_amp: Some(s(0.8)),
        default_pan: Some(s(0.0)),
        default_envelope: Some(Envelope::Ad { attack: 30, decay: 5970 }),
        default_fx: Some(vec![]),
        default_duration_rows: Some(s(1.0)),
        default_pitch_env: None,
        cells,
    }
}

fn bare_track(name: &str, instrument: Option<&str>, cells: Vec<Cell>) -> Track {
    Track {
        name: name.to_string(),
        instrument: instrument.map(|x| x.to_string()),
        voice: None,
        default_amp: None,
        default_pan: None,
        default_envelope: None,
        default_fx: None,
        default_duration_rows: None,
        default_pitch_env: None,
        cells,
    }
}

fn cell(row: u32, note: f32) -> Cell {
    Cell {
        row,
        note: Note::Hz(s(note)),
        velocity: None,
        duration_rows: None,
        pitch_ratio: None,
        pan: None,
        fx: vec![],
        pitch_env: None,
    }
}

#[test]
fn validation_catches_unknown_voice() {
    let mut p = piece(vec![event("nope")]);
    p.voices = Table::new();
    assert!(p.validate().is_err());
    assert!(matches!(
        p.validate(),
        Err(ValidationError::UnknownVoice { index: 0, voice }) if voice == "nope"
    ));
}

#[test]
fn valid_piece_passes() {
    let mut e = event("sin");
    e.dur = 1000;
    assert!(piece(vec![e]).validate().is_ok());
    assert!(piece(vec![]).validate().is_ok());
}

#[test]
fn event_past_end_is_reported() {
    let mut e = event("sin");
    e.t = 950;
    assert!(matches!(
        piece(vec![event("sin"), e]).validate(),
        Err(ValidationError::EventPastEnd { index: 1, end: 1050, duration: 1000 })
    ));
    let mut e = event("sin");
    e.t = u64::MAX;
    assert!(matches!(
        piece(vec![e]).validate(),
        Err(ValidationError::EventPastEnd { end: u64::MAX, .. })
    ));
}

#[test]
fn bad_values_are_reported() {
    let mut e = event("sin");
    e.amp = s(1.5);
    assert!(matches!(piece(vec![e]).validate(), Err(ValidationError::BadAmp { index: 0, amp }) if f(amp) == 1.5));
    let mut e = event("sin");
    e.amp = s(f32::NAN);
    assert!(matches!(piece(vec![e]).validate(), Err(ValidationError::NotFinite { index: 0, field: "amp" })));
    let mut e = event("sin");
    e.pan = s(-1.25);
    assert!(matches!(piece(vec![e]).validate(), Err(ValidationError::BadPan { index: 0, pan }) if f(pan) == -1.25));
    let mut e = event("sin");
    e.pan = s(f32::INFINITY);
    assert!(matches!(piece(vec![e]).validate(), Err(ValidationError::NotFinite { index: 0, field: "pan" })));
    let mut e = event("sin");
    e.freq = Some(Pitch::Hz(s(f32::NEG_INFINITY)));
    assert!(matches!(piece(vec![e]).validate(), Err(ValidationError::NotFinite { index: 0, field: "freq" })));
    // -0.0 and the bounds themselves are fine
    let mut e = event("sin");
    e.amp = s(-0.0);
    e.pan = s(-1.0);
    assert!(piece(vec![e]).validate().is_ok());
}

#[test]
fn highest_key_is_the_last_finite_one() {
    assert!(hz(Pitch::Key(1499)).is_finite());
    assert!(!hz(Pitch::Key(1500)).is_finite());
    let mut e = event("sin");
    e.freq = Some(Pitch::Key(1499));
    assert!(piece(vec![e]).validate().is_ok());
    let mut e = event("sin");
    e.freq = Some(Pitch::Key(1500));
    assert!(matches!(piece(vec![e]).validate(), Err(ValidationError::NotFinite { field: "freq", .. })));
}

#[test]
fn voice_faults_are_reported() {
    let mut p = piece(vec![]);
    p.voices.insert(
        "v".to_string(),
        VoiceDef::Sample { sample_id: "gone".to_string(), loop_mode: SampleLoopMode::Loop },
    );
    assert!(matches!(
        p.validate(),
        Err(ValidationError::UnknownSample { voice, sample_id }) if voice == "v" && sample_id == "gone"
    ));
    p.samples.insert(
        "gone".to_string(),
        SampleRef { path: "x.wav".to_string(), start_sample: 0, end_sample: 0, label: None },
    );
    assert!(p.validate().is_ok());
    p.voices.insert(
        "w".to_string(),
        VoiceDef::SinePartials { partials: vec![s(1.0)], amplitudes: vec![], default_pan: s(0.0) },
    );
    assert!(matches!(
        p.validate(),
        Err(ValidationError::BadSinePartialsLength { voice, partials: 1, amplitudes: 0 }) if voice == "w"
    ));
}

#[test]
fn table_keeps_order_and_replaces() {
    let mut t: Table<SampleRef> = Table::new();
    let r = |p: &str| SampleRef { path: p.to_string(), start_sample: 1, end_sample: 2, label: Some("l".to_string()) };
    t.insert("b".to_string(), r("1"));
    t.insert("a".to_string(), r("2"));
    t.insert("b".to_string(), r("3"));
    assert_eq!(t.len(), 2);
    assert_eq!(t.entry(0).0, "b");
    assert_eq!(t.entry(0).1.path, "3");
    assert_eq!(t.entry(1).0, "a");
    assert!(t.get("c").is_none());
    let copy = t.replica();
    assert_eq!(copy.len(), 2);
    assert_eq!(copy.get("a").unwrap().label.as_deref(), Some("l"));
    let mut u: Table<SampleRef> = Table::new();
    u.insert("a".to_string(), r("4"));
    u.insert("d".to_string(), r("5"));
    t.extend(&u);
    assert_eq!(t.len(), 3);
    assert_eq!(t.get("a").unwrap().path, "4");
    assert_eq!(t.get("b").unwrap().path, "3");
}

#[test]
fn sweeps_are_exponential_by_default() {
    assert_eq!(default_pitch_shape(), PitchShape::Exp);
    assert_eq!(PitchShape::default(), PitchShape::Exp);
}

#[test]
fn samples_per_row_at_120bpm_lpb4() {
    // 120 BPM, LPB 4 → beat = 0.5 s → row = 0.125 s → 6000 samples @ 48k
    let p = empty_pattern();
    assert_eq!(p.samples_per_row(), 6000);
    assert_eq!(p.duration_samples(), 96000);
}

#[test]
fn compile_places_events_on_grid() {
    let mut p = empty_pattern();
    p.tracks.push(kick_track("kick", "k", vec![
        cell(0, 50.0), cell(4, 50.0), cell(8, 50.0), cell(12, 50.0),
    ]));
    let piece = p.compile().expect("compile");
    assert_eq!(piece.events.len(), 4);
    let ts: Vec<u64> = piece.events.iter().map(|e| e.t).collect();
    assert_eq!(ts, vec![0, 24000, 48000, 72000]);
}

#[test]
fn compile_repeated_concatenates() {
    let mut p = empty_pattern();
    p.tracks.push(kick_track("kick", "k", vec![cell(0, 50.0)]));
    let piece = p.compile_repeated(3).expect("compile");
    let ts: Vec<u64> = piece.events.iter().map(|e| e.t).collect();
    assert_eq!(ts, vec![0, 96000, 192000]);
    assert_eq!(piece.duration_samples, 96000 * 3);
}

#[test]
fn instrument_provides_voice_and_defaults() {
    let mut p = empty_pattern();
    p.voices = Table::new();   // start with no voices defined
    p.tracks.push(bare_track("lead", Some("aphex_bell"), vec![cell(0, 440.0)]));
    let piece = p.compile().expect("compile with instrument");
    assert_eq!(piece.events.len(), 1);
    // Voice key defaults to instrument name; voice was auto-registered.
    assert_eq!(piece.events[0].voice, "aphex_bell");
    assert!(piece.voices.contains_key("aphex_bell"));
    // Amp came from the preset (0.45).
    assert!((f(piece.events[0].amp) - 0.45).abs() < 1e-6);
}

#[test]
fn unknown_instrument_is_rejected() {
    let mut p = empty_pattern();
    p.tracks.push(bare_track("lead", Some("not_a_real_preset"), vec![]));
    assert!(matches!(p.compile(), Err(PatternError::UnknownInstrument(_))));
}

#[test]
fn note_name_parses_a4_440() {
    assert!((hz(Note::Name("A-4".into()).to_hz().unwrap()) - 440.0).abs() < 0.01);
    assert!((hz(Note::Name("A4".into()).to_hz().unwrap()) - 440.0).abs() < 0.01);
}

#[test]
fn note_name_octaves_and_accidentals() {
    let middle_c = hz(Note::Name("C-4".into()).to_hz().unwrap());
    assert!((middle_c - 261.626).abs() < 0.01);
    let c_sharp = hz(Note::Name("C#4".into()).to_hz().unwrap());
    assert!((c_sharp - 277.183).abs() < 0.01);
    let d_flat = hz(Note::Name("Db4".into()).to_hz().unwrap());
    assert!((d_flat - c_sharp).abs() < 0.01);          // enharmonic
    let low = hz(Note::Name("A-1".into()).to_hz().unwrap());
    assert!((low - 55.0).abs() < 0.01);
    let high = hz(Note::Name("A-6".into()).to_hz().unwrap());
    assert!((high - 1760.0).abs() < 0.1);
}

#[test]
fn note_hz_passthrough() {
    assert_eq!(hz(Note::Hz(s(123.45)).to_hz().unwrap()), 123.45);
}

#[test]
fn note_names_have_exact_keys_and_messages() {
    let key = |n: &str| Note::Name(n.to_string()).to_hz();
    assert_eq!(key("A-4"), Ok(Pitch::Key(69)));
    assert_eq!(key(" \u{3000}c0\n"), Ok(Pitch::Key(12)));
    assert_eq!(key("C--1"), Ok(Pitch::Key(0)));
    assert_eq!(key("C+1"), Ok(Pitch::Key(24)));
    assert_eq!(key("Bb2"), Ok(Pitch::Key(46)));
    assert_eq!(key("bb2"), Ok(Pitch::Key(46)));
    assert_eq!(key("G#-3"), Ok(Pitch::Key(56)));
    assert_eq!(key("   "), Err("empty note name".to_string()));
    assert_eq!(key(" H4 "), Err("bad note letter in 'H4'".to_string()));
    assert_eq!(key("\u{e9}4"), Err("bad note letter in '\u{e9}4'".to_string()));
    assert_eq!(key("C"), Err("bad octave in 'C'".to_string()));
    assert_eq!(key("C-"), Err("bad octave in 'C-'".to_string()));
    assert_eq!(key("C4x"), Err("bad octave in 'C4x'".to_string()));
    assert_eq!(key("C2147483648"), Err("bad octave in 'C2147483648'".to_string()));
    assert_eq!(key("C2147483647"), Ok(Pitch::Key(2147483648 * 12)));
    assert_eq!(key("C--2147483648"), Ok(Pitch::Key(-2147483647 * 12)));
}

#[test]
fn unknown_voice_is_rejected() {
    let mut p = empty_pattern();
    p.tracks.push(kick_track("bad", "nope", vec![]));
    assert!(matches!(p.compile(), Err(PatternError::UnknownVoice(_, _))));
}

#[test]
fn out_of_range_row_is_rejected() {
    let mut p = empty_pattern();
    p.tracks.push(kick_track("k", "k", vec![cell(99, 50.0)]));
    assert!(matches!(p.compile(), Err(PatternError::CellOutOfRange { .. })));
}

#[test]
fn zero_tempo_is_rejected_without_panicking() {
    let mut p = empty_pattern();
    p.tempo_bpm = s(0.0);
    p.tracks.push(kick_track("kick", "k", vec![cell(0, 50.0)]));
    assert!(matches!(
        p.compile(),
        Err(PatternError::InvalidGrid { field: "tempo_bpm", .. })
    ));
}

#[test]
fn non_finite_tempo_is_rejected_without_panicking() {
    let mut p = empty_pattern();
    p.tempo_bpm = s(f32::NAN);
    p.tracks.push(kick_track("kick", "k", vec![cell(0, 50.0)]));
    assert!(matches!(
        p.compile(),
        Err(PatternError::InvalidGrid { field: "tempo_bpm", .. })
    ));
}

#[test]
fn zero_sample_rate_is_rejected_without_panicking() {
    let mut p = empty_pattern();
    p.sample_rate = 0;
    p.tracks.push(kick_track("kick", "k", vec![cell(0, 50.0)]));
    assert!(matches!(
        p.compile(),
        Err(PatternError::InvalidGrid { field: "sample_rate", .. })
    ));
}

#[test]
fn overflowing_grid_is_rejected_without_panicking() {
    let mut p = empty_pattern();
    p.sample_rate = u32::MAX;
    p.tempo_bpm = s(f32::MIN_POSITIVE);
    p.rows = u32::MAX;
    p.tracks.push(kick_track("kick", "k", vec![cell(0, 50.0)]));
    assert!(matches!(p.compile_repeated(u32::MAX), Err(PatternError::GridOverflow)));
}

#[test]
fn other_grid_faults_are_reported() {
    let mut p = empty_pattern();
    p.rows = 0;
    assert!(matches!(p.compile(), Err(PatternError::DegenerateGrid)));
    let mut p = empty_pattern();
    p.lines_per_beat = 0;
    assert!(matches!(p.compile(), Err(PatternError::DegenerateGrid)));
    let mut p = empty_pattern();
    p.tempo_bpm = s(f32::MAX);
    assert!(matches!(
        p.compile(),
        Err(PatternError::InvalidGrid { field: "samples_per_row", value }) if f64::from_bits(value.bits) == 0.0
    ));
    let mut p = empty_pattern();
    p.tempo_bpm = s(-3.5);
    assert!(matches!(
        p.compile(),
        Err(PatternError::InvalidGrid { field: "tempo_bpm", value }) if f64::from_bits(value.bits) == -3.5
    ));
    // a loop that fits, many that do not
    let mut p = empty_pattern();
    p.tempo_bpm = s(1e-9);
    assert!(p.compile().is_ok());
    assert!(matches!(p.compile_repeated(u32::MAX), Err(PatternError::GridOverflow)));
}

#[test]
fn incomplete_tracks_are_reported() {
    let mut p = empty_pattern();
    p.tracks.push(bare_track("t", None, vec![]));
    assert!(matches!(p.compile(), Err(PatternError::TrackMissingVoice(t)) if t == "t"));
    for (i, field) in ["default_amp", "default_envelope", "default_duration_rows"].iter().enumerate() {
        let mut p = empty_pattern();
        let mut t = kick_track("t", "k", vec![]);
        match i {
            0 => t.default_amp = None,
            1 => t.default_envelope = None,
            _ => t.default_duration_rows = None,
        }
        p.tracks.push(t);
        assert!(matches!(
            p.compile(),
            Err(PatternError::TrackMissingField(name, missing)) if name == "t" && missing == *field
        ));
    }
    // pan and effects may be left out
    let mut p = empty_pattern();
    let mut t = kick_track("t", "k", vec![cell(0, 50.0)]);
    t.default_pan = None;
    t.default_fx = None;
    p.tracks.push(t);
    let made = p.compile().unwrap();
    assert_eq!(f(made.events[0].pan), 0.0);
    assert!(made.events[0].fx.is_empty());
}

#[test]
fn bad_notes_and_bad_pieces_are_reported() {
    let mut p = empty_pattern();
    let mut c = cell(0, 50.0);
    c.note = Note::Name("H-4".to_string());
    p.tracks.push(kick_track("kick", "k", vec![cell(1, 1.0), c]));
    assert!(matches!(
        p.compile(),
        Err(PatternError::BadNote(t, why)) if t == "kick" && why == "bad note letter in 'H-4'"
    ));
    // no loop, no note
    let none = p.compile_repeated(0).unwrap();
    assert_eq!((none.events.len(), none.duration_samples), (0, 0));
    let mut p = empty_pattern();
    let mut c = cell(0, 50.0);
    c.velocity = Some(s(2.0));
    p.tracks.push(kick_track("kick", "k", vec![c]));
    assert!(matches!(
        p.compile(),
        Err(PatternError::Validation(ValidationError::BadAmp { index: 0, .. }))
    ));
}

#[test]
fn cells_override_their_track() {
    let mut p = empty_pattern();
    let mut c = cell(15, 50.0);
    c.velocity = Some(s(0.25));
    c.pan = Some(s(-0.5));
    c.duration_rows = Some(s(9.0));
    c.fx = vec![FxNode::Reverse];
    c.pitch_ratio = Some(s(2.0));
    let mut d = cell(3, 60.0);
    d.duration_rows = Some(s(0.5));
    let mut e = cell(4, 70.0);
    e.duration_rows = Some(s(f32::NAN));
    p.tracks.push(kick_track("kick", "k", vec![c, d, e]));
    p.metadata.title = Some("tune".to_string());
    let made = p.compile().unwrap();
    assert_eq!(made.metadata.title.as_deref(), Some("tune"));
    assert_eq!(made.metadata.generator.as_deref(), Some("rtracker-pattern"));
    let c = &made.events[0];
    // the last row, cut at the end of the piece
    assert_eq!((c.t, c.dur), (90000, 6000));
    assert_eq!((f(c.amp), f(c.pan)), (0.25, -0.5));
    assert_eq!(c.fx, vec![FxNode::Reverse]);
    assert_eq!(c.pitch_ratio.map(f), Some(2.0));
    assert_eq!((made.events[1].t, made.events[1].dur), (18000, 3000));
    assert_eq!(f(made.events[1].amp), 0.8);
    assert_eq!((made.events[2].t, made.events[2].dur), (24000, 0));
}

#[test]
fn a_voice_of_the_pattern_beats_that_of_an_instrument() {
    let mut p = empty_pattern();
    p.voices.insert("sub_kick".to_string(), VoiceDef::NoiseBandpass { q: s(3.0), default_pan: s(0.0) });
    p.tracks.push(bare_track("a", Some("sub_kick"), vec![cell(0, 50.0)]));
    let made = p.compile().unwrap();
    assert!(matches!(made.voices.get("sub_kick"), Some(VoiceDef::NoiseBandpass { .. })));
    assert_eq!(made.events[0].envelope, Envelope::Exp { attack: 30, tau: 3500 });
    assert_eq!(made.events[0].pitch_env.unwrap().time_samples, 2400);
    // 1.5 rows
    assert_eq!(made.events[0].dur, 9000);
}

#[test]
fn library_is_populated() {
    let lib = library();
    assert!(lib.len() >= 10);
    assert!(lib.contains_key("aphex_bell"));
}

#[test]
fn names_match_library() {
    let lib = library();
    for n in names() {
        assert!(lib.contains_key(n), "name '{n}' missing from library");
    }
    assert_eq!(lib.len(), names().len());
}

#[test]
fn instruments_have_their_exact_values() {
    let pluck = get("aphex_pluck").unwrap();
    assert_eq!((pluck.name, pluck.category), ("aphex_pluck", Category::Lead));
    match &pluck.voice {
        VoiceDef::SinePartials { partials, amplitudes, .. } => {
            assert_eq!(partials.iter().map(|x| f(*x)).collect::<Vec<f32>>(), vec![1.0, 2.0, 3.01, 4.05, 5.2]);
            assert_eq!(amplitudes.iter().map(|x| f(*x)).collect::<Vec<f32>>(), vec![1.0, 0.42, 0.20, 0.10, 0.04]);
        }
        _ => panic!("not partials"),
    }
    assert_eq!(pluck.default_fx.len(), 5);
    assert!(matches!(pluck.default_fx[4], FxNode::CombDelay { delay_samples: 5000, feedback } if f(feedback) == 0.46));
    let zap = get("glitch_zap").unwrap();
    assert_eq!(zap.default_fx[0], FxNode::Stutter { slice_samples: 400, repeats: 10 });
    let env = zap.default_pitch_env.unwrap();
    assert_eq!((f(env.from_ratio), f(env.to_ratio), env.time_samples), (8.0, 0.5, 1200));
    let hat = get("closed_hat").unwrap();
    assert_eq!((f(hat.default_duration_rows), f(hat.default_amp)), (0.4, 0.28));
    assert!(get("nothing").is_none());
}

fn one_kick_pattern(rows: u32, tempo: f32) -> Pattern {
    let mut p = empty_pattern();
    p.tempo_bpm = s(tempo);
    p.rows = rows;
    let mut t = kick_track("kick", "k", vec![cell(0, 50.0)]);
    t.default_envelope = Some(Envelope::Ad { attack: 30, decay: 1000 });
    p.tracks.push(t);
    p
}

#[test]
fn empty_song_is_rejected() {
    let song = Song { patterns: vec![], metadata: SongMetadata::default() };
    assert!(matches!(song.compile(), Err(PatternError::EmptySong)));
}

#[test]
fn patterns_concatenate_on_timeline() {
    // Two 16-row patterns at 120 BPM / lpb 4 → each 96000 samples long.
    let song = Song {
        patterns: vec![one_kick_pattern(16, 120.0), one_kick_pattern(16, 120.0)],
        metadata: SongMetadata::default(),
    };
    let piece = song.compile().expect("compile song");
    // One kick per pattern; the second is offset by the first's duration.
    let ts: Vec<u64> = piece.events.iter().map(|e| e.t).collect();
    assert_eq!(ts, vec![0, 96000]);
    assert_eq!(piece.duration_samples, 192000);
}

#[test]
fn mismatched_sample_rate_is_rejected() {
    let mut a = one_kick_pattern(16, 120.0);
    let mut b = one_kick_pattern(16, 120.0);
    a.sample_rate = 48000;
    b.sample_rate = 44100;
    let song = Song { patterns: vec![a, b], metadata: SongMetadata::default() };
    assert!(matches!(
        song.compile(),
        Err(PatternError::SongSampleRateMismatch { expected: 48000, found: 44100 })
    ));
}

#[test]
fn later_definition_wins_in_a_song() {
    let a = one_kick_pattern(16, 120.0);
    let mut b = one_kick_pattern(8, 240.0);
    b.voices.insert("k".to_string(), VoiceDef::NoiseBandpass { q: s(1.0), default_pan: s(0.0) });
    b.voices.insert("z".to_string(), VoiceDef::Sine { default_pan: s(0.0) });
    let c = one_kick_pattern(4, 120.0);
    let mut song = Song { patterns: vec![a, c, b], metadata: SongMetadata::default() };
    song.metadata.title = Some("s".to_string());
    let made = song.compile().unwrap();
    assert!(matches!(made.voices.get("k"), Some(VoiceDef::NoiseBandpass { .. })));
    assert_eq!(made.voices.len(), 2);
    let ts: Vec<u64> = made.events.iter().map(|e| e.t).collect();
    assert_eq!(ts, vec![0, 96000, 120000]);
    assert_eq!(made.duration_samples, 96000 + 24000 + 24000);
    assert_eq!(made.metadata.generator.as_deref(), Some("rtracker-song"));
    assert_eq!(made.metadata.title.as_deref(), Some("s"));
}

#[test]
fn a_song_too_long_to_count_is_refused() {
    let mut patterns = vec![];
    for _ in 0..4 {
        let mut p = empty_pattern();
        p.tempo_bpm = s(1.44e-12);
        patterns.push(p);
    }
    assert!(patterns[0].compile().is_ok());
    let song = Song { patterns, metadata: SongMetadata::default() };
    assert!(matches!(song.compile(), Err(PatternError::GridOverflow)));
}

#[test]
fn a_faulty_pattern_stops_its_song() {
    let mut b = one_kick_pattern(16, 120.0);
    b.rows = 0;
    let song = Song { patterns: vec![one_kick_pattern(16, 120.0), b], metadata: SongMetadata::default() };
    assert!(matches!(song.compile(), Err(PatternError::DegenerateGrid)));
}
