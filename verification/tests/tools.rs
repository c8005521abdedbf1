use hound::{SampleFormat, WavSpec, WavWriter};

use rtracker::curve::Curve;
use rtracker::engine::{fill, playhead_frame, to_unsigned, Heads};
use rtracker::mixer::{pan_gains, render_with_dir};
use rtracker::mod_import::{
    be_u16, bytes_to_ascii, channel_pan, collect_triggers, loop_mode_for, parse_mod, period_to_hz, sample_id,
    samples_dir_name, sanitize_name, trigger_durations, ModError, SampleHeader, Trigger, CHANNELS, HEADER_LEN,
    ROWS_PER_PATTERN,
};
use rtracker::note::Note;
use rtracker::paths::relativize;
use rtracker::pattern::{Pattern, PatternError, PatternMetadata};
use rtracker::piece::{SampleLoopMode, VoiceDef};
use rtracker::session::{has_changed, read_song, splice};
use rtracker::single::Single;
use rtracker::slice::{
    bounds_from_onsets, detect_onsets, equal_bounds, pattern_of, slice_to_pattern, SliceError, SliceOpts,
};
use rtracker::song::{Song, SongMetadata};
use rtracker::table::Table;
use rtracker::wav::{decode_wav_mono, write_mono_wav};

fn s(x: f32) -> Single {
    Single::of_bits(x.to_bits())
}

fn f(x: Single) -> f32 {
    f32::from_bits(x.bits)
}

fn singles(xs: &[f32]) -> Vec<Single> {
    xs.iter().map(|x| s(*x)).collect()
}

fn floats(xs: &[Single]) -> Vec<f32> {
    xs.iter().map(|x| f(*x)).collect()
}

#[test]
fn equal_bounds_cover_whole_file_without_gaps() {
    let b = equal_bounds(1000, 4);
    assert_eq!(b, vec![(0, 250), (250, 500), (500, 750), (750, 1000)]);
    // Remainder lands in the final slice.
    let b = equal_bounds(1003, 4);
    assert_eq!(b.first().unwrap().0, 0);
    assert_eq!(b.last().unwrap().1, 1003);
    for w in b.windows(2) {
        assert_eq!(w[0].1, w[1].0, "slices must abut");
    }
}

#[test]
fn too_many_slices_are_one() {
    assert_eq!(equal_bounds(3, 4), vec![(0, 3)]);
    assert_eq!(equal_bounds(10, 0), vec![(0, 10)]);
    assert_eq!(equal_bounds(0, 4), vec![(0, 0)]);
    assert_eq!(equal_bounds(u64::MAX, 2), vec![(0, u64::MAX / 2), (u64::MAX / 2, u64::MAX)]);
}

#[test]
fn onsets_bound_slices() {
    assert_eq!(bounds_from_onsets(&vec![], 9), vec![(0, 9)]);
    assert_eq!(bounds_from_onsets(&vec![0, 4, 7], 9), vec![(0, 4), (4, 7), (7, 9)]);
    assert_eq!(bounds_from_onsets(&vec![0, 4, 4, 9], 9), vec![(0, 4), (4, 9)]);
}

#[test]
fn onset_detection_finds_spaced_impulses() {
    // Four loud bursts on a quiet bed, 12000 frames apart at 48k.
    let sr = 48_000;
    let mut buf = vec![0.0f32; 48_000];
    for hit in 0..4 {
        let at = hit * 12_000;
        for j in 0..2000 {
            // decaying noise-ish burst
            let phase = (j as f32) * 0.7;
            buf[at + j] = phase.sin() * (1.0 - j as f32 / 2000.0);
        }
    }
    let onsets = detect_onsets(&singles(&buf), sr, s(1.6), s(40.0));
    // Starts at 0, then roughly one per burst (allow the leading 0 to double
    // up with the first burst).
    assert!(onsets.len() >= 4, "expected ~4 onsets, got {onsets:?}");
    // Detected onsets should sit near burst starts (within ~one hop block).
    for hit in 1..4u64 {
        let want = hit * 12_000;
        assert!(
            onsets.iter().any(|&o| (o as i64 - want as i64).abs() < 1024),
            "no onset near {want} in {onsets:?}"
        );
    }
    assert_eq!(onsets[0], 0);
    assert!(onsets.windows(2).all(|w| w[0] < w[1]));
    // a short file has one onset
    assert_eq!(detect_onsets(&singles(&[1.0; 511]), sr, s(1.6), s(40.0)), vec![0]);
}

/// Bursts in every seventh hop.
fn bursts() -> Vec<Single> {
    let mut buf = vec![0.0f32; 20_000];
    for k in 1..=11 {
        buf[1792 * k..1792 * k + 200].fill(1.0);
    }
    singles(&buf)
}

#[test]
fn onsets_keep_their_distance() {
    let found = |sr: u32, gap: f32| detect_onsets(&bursts(), sr, s(1.6), s(gap));
    let every: Vec<u64> = std::iter::once(0).chain((1..=11).map(|k| 256 * (7 * k - 1))).collect();
    let second: Vec<u64> = std::iter::once(0).chain((0..6).map(|k| 256 * (14 * k + 6))).collect();
    // 40 ms are 1920 frames at 48 kHz: more than the 1792 between two bursts
    assert_eq!(found(48_000, 40.0), second);
    assert!(found(48_000, 40.0)[1..].windows(2).all(|w| w[1] - w[0] >= 1920));
    assert_eq!(found(48_000, 37.0), every);
    // 56 ms are 1792 frames at 32 kHz
    assert_eq!(found(32_000, 56.0), every);
    assert_eq!(found(32_000, 56.0_f32.next_up()), second);
    // no gap to speak of, or one that never ends
    for gap in [0.0, -5.0, f32::NAN, f32::from_bits(1)] {
        assert_eq!(found(48_000, gap), every);
    }
    assert_eq!(found(48_000, f32::INFINITY), every[..2]);
    assert_eq!(found(48_000, f32::MAX), every[..2]);
    assert_eq!(found(48_000, 1.0e15), every[..2]);
}

fn ramp() -> Vec<u8> {
    // 8000-frame mono ramp.
    let spec = WavSpec { channels: 1, sample_rate: 48_000, bits_per_sample: 16, sample_format: SampleFormat::Int };
    let mut out = std::io::Cursor::new(Vec::new());
    let mut w = WavWriter::new(&mut out, spec).unwrap();
    for i in 0..8000 {
        w.write_sample(((i % 256) as i16 - 128) * 100).unwrap();
    }
    w.finalize().unwrap();
    out.into_inner()
}

#[test]
fn slice_to_pattern_roundtrips_and_compiles() {
    let opts = SliceOpts { slices: 8, ..SliceOpts::default() };
    let pat = slice_to_pattern(&ramp(), &"src.wav".to_string(), &Some("src".to_string()), &opts).expect("slice");

    assert_eq!(pat.tracks.len(), 8);
    assert_eq!(pat.rows, 8);
    // Eight equal slices of an 8000-frame file → 1000 frames each → at 48k
    // the gapless tempo is 48000*60/(1000*4) = 720 BPM.
    assert!((f(pat.tempo_bpm) - 720.0).abs() < 1.0, "bpm {}", f(pat.tempo_bpm));
    assert!(pat.compile().is_ok());
    // Slices abut and cover the file.
    let mut ranges: Vec<(u64, u64)> =
        (0..pat.samples.len()).map(|i| pat.samples.entry(i).1).map(|s| (s.start_sample, s.end_sample)).collect();
    ranges.sort();
    assert_eq!(ranges.first().unwrap().0, 0);
    assert_eq!(ranges.last().unwrap().1, 8000);
}

#[test]
fn a_sliced_pattern_is_laid_out_in_order() {
    let opts = SliceOpts { slices: 8, ..SliceOpts::default() };
    let pat = slice_to_pattern(&ramp(), &"a/src.wav".to_string(), &Some("src".to_string()), &opts).unwrap();
    assert_eq!(pat.metadata.title.as_deref(), Some("src (sliced)"));
    assert_eq!(pat.metadata.author.as_deref(), Some("rtracker slice"));
    assert_eq!(pat.sample_rate, 48000);
    let t = &pat.tracks[3];
    assert_eq!((t.name.as_str(), t.voice.as_deref()), ("slice 03", Some("slice_03")));
    assert_eq!(t.cells[0].row, 3);
    assert!(matches!(t.cells[0].note, Note::Hz(h) if f(h) == 1.0));
    assert_eq!(t.default_amp.map(f), Some(0.9));
    assert_eq!(t.default_duration_rows.map(f), Some(1.0));
    let r = pat.samples.get("slice_03").unwrap();
    assert_eq!((r.path.as_str(), r.start_sample, r.end_sample), ("a/src.wav", 3000, 4000));
    assert!(matches!(
        pat.voices.get("slice_07"),
        Some(VoiceDef::Sample { sample_id, loop_mode: SampleLoopMode::OneShot }) if sample_id == "slice_07"
    ));
    assert_eq!((pat.tracks.len(), pat.voices.len(), pat.samples.len(), pat.rows), (8, 8, 8, 8));
    // played back gaplessly
    let made = pat.compile().unwrap();
    assert!(made.events.windows(2).all(|w| w[0].t + w[0].dur == w[1].t));
    assert_eq!(made.duration_samples, 8000);
    for (i, e) in made.events.iter().enumerate() {
        assert_eq!((e.t, e.dur), (1000 * i as u64, 1000));
    }
}

fn math(c: Curve) -> Single {
    s(match c {
        Curve::Sin(x) => f(x).sin(),
        Curve::Cos(x) => f(x).cos(),
        Curve::Exp(x) => f(x).exp(),
        Curve::Pow(x, y) => f(x).powf(f(y)),
    })
}

#[test]
fn slices_rendered_straight_back_are_the_file() {
    let file = ramp();
    let opts = SliceOpts { slices: 8, ..SliceOpts::default() };
    let pat = slice_to_pattern(&file, &"src.wav".to_string(), &None, &opts).unwrap();
    let piece = pat.compile().unwrap();
    let files: Vec<Vec<u8>> = (0..piece.samples.len()).map(|_| file.clone()).collect();
    let buf = floats(&render_with_dir(&piece, &files, &math).unwrap());
    let mono = floats(&decode_wav_mono(&file).unwrap().0);
    let (left, right) = pan_gains(&math, s(0.0));
    assert_eq!(buf.len(), 16000);
    for i in 0..8 {
        // fades of 120 samples at both ends of a slice
        for k in 120..880 {
            let frame = i * 1000 + k;
            assert_eq!(buf[2 * frame], mono[frame] * 0.9 * f(left));
            assert_eq!(buf[2 * frame + 1], mono[frame] * 0.9 * f(right));
        }
    }
}

#[test]
fn a_tempo_gives_its_row_length_back() {
    for row in [1u64, 2, 3, 999, 44_100, 131_071, 5_000_003, 8_388_607] {
        for lines_per_beat in [1, 3, 4, 1000, u32::MAX] {
            for rate in [1, 8000, 44_100, 48_000, u32::MAX] {
                let opts = SliceOpts { slices: 1, lines_per_beat, ..SliceOpts::default() };
                let pat = pattern_of(&vec![(0, row)], row, rate, &opts, &"x.wav".to_string(), &None);
                assert_eq!(pat.samples_per_row(), row, "{row} {lines_per_beat} {rate}");
            }
        }
    }
    // beyond, it may be off by one
    let opts = SliceOpts { slices: 1, lines_per_beat: 7, ..SliceOpts::default() };
    let pat = pattern_of(&vec![(0, 8_686_711)], 8_686_711, 8000, &opts, &"x.wav".to_string(), &None);
    assert_eq!(pat.samples_per_row(), 8_686_712);
}

#[test]
fn a_given_tempo_and_rate_hold() {
    let opts = SliceOpts {
        slices: 2,
        bpm: Some(s(60.0)),
        lines_per_beat: 0,
        sample_rate: Some(8000),
        ..SliceOpts::default()
    };
    let pat = slice_to_pattern(&ramp(), &"src.wav".to_string(), &None, &opts).unwrap();
    assert_eq!((pat.sample_rate, pat.lines_per_beat, f(pat.tempo_bpm)), (8000, 1, 60.0));
    // one row of 8000 samples for the file, but two slices
    assert_eq!(pat.rows, 2);
    assert!(pat.metadata.title.is_none());
    assert_eq!(pat.tracks[0].default_duration_rows.map(f), Some(1.0));
}

#[test]
fn onset_slices_are_quantized_to_rows() {
    let opts = SliceOpts { transient: true, ..SliceOpts::default() };
    let bounds = vec![(0, 900), (900, 2100), (2100, 4000)];
    let pat = pattern_of(&bounds, 4000, 48000, &opts, &"x.wav".to_string(), &None);
    // 4000 / 3 rounds to 1333 a row; 4 rows are needed
    assert_eq!(pat.rows, 4);
    let rows: Vec<u32> = pat.tracks.iter().map(|t| t.cells[0].row).collect();
    assert_eq!(rows, vec![0, 1, 2]);
    assert_eq!(f(pat.tempo_bpm), (48000.0_f64 * 60.0 / (1333.0 * 4.0)) as f32);
    let sliced = slice_to_pattern(&ramp(), &"x.wav".to_string(), &None, &opts).unwrap();
    assert!(!sliced.tracks.is_empty());
}

#[test]
fn files_that_cannot_be_sliced_are_reported() {
    let go = |bytes: &Vec<u8>, opts: &SliceOpts| slice_to_pattern(bytes, &"x".to_string(), &None, opts);
    assert!(matches!(go(&vec![], &SliceOpts::default()), Err(SliceError::Decode(_))));
    let empty = write_mono_wav(8000, &vec![]).unwrap();
    assert!(matches!(go(&empty, &SliceOpts::default()), Err(SliceError::Empty)));
    let opts = SliceOpts { sample_rate: Some(0), ..SliceOpts::default() };
    assert!(matches!(
        go(&ramp(), &opts),
        Err(SliceError::Compile(PatternError::InvalidGrid { field: "sample_rate", .. }))
    ));
}

fn tiny_mod() -> Vec<u8> {
    let mut data = vec![0u8; HEADER_LEN + ROWS_PER_PATTERN * CHANNELS * 4 + 4];
    data[0..8].copy_from_slice(b"tiny mod");

    let sample = 20;
    data[sample..sample + 4].copy_from_slice(b"beep");
    data[sample + 23] = 2; // two words = four bytes
    data[sample + 25] = 64;

    data[950] = 1; // song length
    data[1080..1084].copy_from_slice(b"M.K.");

    let period = 428u16;
    data[HEADER_LEN] = ((period >> 8) as u8) & 0x0f;
    data[HEADER_LEN + 1] = period as u8;
    data[HEADER_LEN + 2] = 0x10; // sample 1, no effect
    data[HEADER_LEN + 3] = 0;

    let sample_data = HEADER_LEN + ROWS_PER_PATTERN * CHANNELS * 4;
    data[sample_data..sample_data + 4].copy_from_slice(&[0, 64, 192, 0]);
    data
}

#[test]
fn parses_simple_four_channel_mod() {
    let data = tiny_mod();
    let imported = match parse_mod(&data) {
        Ok(imported) => imported,
        Err(e) => panic!("parse mod: {e:?}"),
    };

    assert_eq!(imported.pattern.rows, 64);
    assert_eq!(imported.pattern.tracks.len(), 1);
    assert_eq!(imported.pattern.voices.len(), 1);
    assert_eq!(imported.samples.len(), 1);

    let cell = &imported.pattern.tracks[0].cells[0];
    assert_eq!(cell.row, 0);
    assert!(matches!(cell.note, Note::Hz(h) if (f(h) - 8287.1).abs() < 1.0));
    assert!(f(cell.pitch_ratio.unwrap()) > 0.17 && f(cell.pitch_ratio.unwrap()) < 0.18);
}

#[test]
fn import_writes_pattern_and_samples() {
    let mut imported = match parse_mod(&tiny_mod()) {
        Ok(imported) => imported,
        Err(e) => panic!("import mod: {e:?}"),
    };
    assert_eq!(samples_dir_name("tiny"), "tiny_samples");
    let mut written: Vec<(String, Vec<u8>)> = vec![];
    for sample in &imported.samples {
        let path = format!("{}/{}", samples_dir_name("tiny"), sample.file_name);
        written.push((path.clone(), write_mono_wav(48000, &sample.pcm).unwrap()));
        sample.link(path, &mut imported.pattern);
    }
    assert_eq!(imported.pattern.samples.len(), 1);
    assert_eq!(written.len(), 1);
    assert_eq!(written[0].0, "tiny_samples/sample_01_beep.wav");
    let (pcm, rate) = decode_wav_mono(&written[0].1).unwrap();
    assert_eq!(rate, 48000);
    assert_eq!(floats(&pcm), vec![0.0, 16383.0 / 32767.0, -16383.0 / 32767.0, 0.0]);
    let r = imported.pattern.samples.get("sample_01").unwrap();
    assert_eq!(r.path, "tiny_samples/sample_01_beep.wav");
    assert_eq!((r.start_sample, r.end_sample, r.label.as_deref()), (0, 0, Some("beep")));
    assert!(imported.pattern.compile().is_ok());
}

#[test]
fn an_imported_track_has_its_defaults() {
    let imported = parse_mod(&tiny_mod()).ok().unwrap();
    assert_eq!(floats(&imported.samples[0].pcm), vec![0.0, 0.5, -0.5, 0.0]);
    let p = &imported.pattern;
    assert_eq!((p.sample_rate, f(p.tempo_bpm), p.lines_per_beat), (48000, 125.0, 4));
    assert_eq!(p.metadata.title.as_deref(), Some("tiny mod"));
    assert_eq!(p.metadata.author.as_deref(), Some("imported from ProTracker MOD"));
    let t = &p.tracks[0];
    assert_eq!((t.name.as_str(), t.voice.as_deref()), ("ch1 beep", Some("sample_01")));
    assert_eq!((t.default_amp.map(f), t.default_pan.map(f)), (Some(1.0), Some(-0.65)));
    // the only trigger lasts to the end
    assert_eq!(t.cells[0].duration_rows.map(f), Some(64.0));
    assert!(matches!(
        p.voices.get("sample_01"),
        Some(VoiceDef::Sample { loop_mode: SampleLoopMode::OneShot, .. })
    ));
}

#[test]
fn faulty_mods_are_reported() {
    assert!(matches!(parse_mod(&vec![0; 1083]), Err(ModError::TooSmall)));
    let mut data = tiny_mod();
    data[1080..1084].copy_from_slice(b"8CHN");
    match parse_mod(&data) {
        Err(e) => {
            assert!(matches!(&e, ModError::Signature(x) if x == "8CHN"));
            assert_eq!(e.message(), "unsupported MOD signature '8CHN' (expected a 4-channel ProTracker MOD)");
        }
        Ok(_) => panic!("accepted"),
    }
    for len in [0, 129] {
        let mut data = tiny_mod();
        data[950] = len;
        match parse_mod(&data) {
            Err(e) => assert_eq!(e.message(), format!("invalid MOD song length {len}")),
            Ok(_) => panic!("accepted"),
        }
    }
    let mut data = tiny_mod();
    data[952] = 1;
    assert!(matches!(parse_mod(&data), Err(ModError::PatternsTruncated)));
    let mut data = tiny_mod();
    data.pop();
    match parse_mod(&data) {
        Err(e) => {
            assert!(matches!(e, ModError::SampleTruncated(1)));
            assert_eq!(e.message(), "file ended inside sample 1");
        }
        Ok(_) => panic!("accepted"),
    }
    assert_eq!(ModError::TooSmall.message(), "file is too small to be a 31-sample ProTracker MOD");
    assert_eq!(ModError::PatternsTruncated.message(), "file ended before pattern data completed");
    for signature in [b"M!K!", b"FLT4", b"4CHN"] {
        let mut data = tiny_mod();
        data[1080..1084].copy_from_slice(signature);
        assert!(parse_mod(&data).is_ok());
    }
}

#[test]
fn small_pieces_of_a_mod() {
    assert_eq!(be_u16(&vec![9, 0x12, 0x34], 1), 0x1234);
    assert_eq!(bytes_to_ascii(&b" a\x01b \0zz".to_vec(), 0, 7), "a b");
    assert_eq!(bytes_to_ascii(&b"abc".to_vec(), 1, 3), "bc");
    assert_eq!(sanitize_name("_Kick Drum!"), "kick_drum");
    assert_eq!(sanitize_name("\u{e9}"), "sample");
    assert_eq!(sanitize_name(""), "sample");
    assert_eq!(sample_id(0), "sample_01");
    assert_eq!(sample_id(122), "sample_123");
    assert_eq!(f(period_to_hz(428)), 7_093_789.2_f32 / 856.0);
    assert_eq!(period_to_hz(0), period_to_hz(1));
    let pans: Vec<f32> = (0..5).map(|c| f(channel_pan(c))).collect();
    assert_eq!(pans, vec![-0.65, 0.65, 0.65, -0.65, 0.0]);
    let header = |len_bytes, repeat_start, repeat_len| SampleHeader {
        name: String::new(),
        len_bytes,
        volume: 64,
        repeat_start,
        repeat_len,
    };
    assert_eq!(loop_mode_for(&header(4, 0, 4)), SampleLoopMode::Loop);
    assert_eq!(loop_mode_for(&header(2, 0, 2)), SampleLoopMode::OneShot);
    assert_eq!(loop_mode_for(&header(8, 0, 6)), SampleLoopMode::OneShot);
    assert_eq!(loop_mode_for(&header(4, 2, 4)), SampleLoopMode::OneShot);
}

#[test]
fn a_trigger_lasts_to_the_next_in_its_channel() {
    let t = |row, channel| Trigger { row, channel, sample_index: 0, period: 428 };
    let triggers = vec![t(0, 0), t(0, 1), t(4, 0), t(10, 1)];
    assert_eq!(trigger_durations(&triggers, 64), vec![4, 10, 60, 54]);
    assert_eq!(trigger_durations(&vec![t(70, 2)], 64), vec![1]);
    // in any order; of two in one row the later in the list comes after
    assert_eq!(trigger_durations(&vec![t(4, 0), t(0, 0), t(4, 0), t(2, 7)], 64), vec![1, 4, 60, 1]);
    assert_eq!(trigger_durations(&vec![t(10, 1), t(4, 0), t(0, 1), t(0, 0)], 64), vec![54, 60, 10, 4]);
}

#[test]
fn a_channel_remembers_its_sample() {
    let mut data = tiny_mod();
    // a period without a sample, two rows later, and one in a channel that has none
    let at = HEADER_LEN + 2 * CHANNELS * 4;
    data[at + 1] = 100;
    data[at + 5] = 100;
    let headers: Vec<SampleHeader> = (0..31)
        .map(|i| SampleHeader {
            name: if i == 0 { "beep".to_string() } else { String::new() },
            len_bytes: if i == 0 { 4 } else { 0 },
            volume: if i == 0 { 64 } else { 0 },
            repeat_start: 0,
            repeat_len: 0,
        })
        .collect();
    let found = |orders: &[u8], headers: &Vec<SampleHeader>| -> Vec<(u32, usize, usize, u16)> {
        collect_triggers(&data, HEADER_LEN, &orders.to_vec(), headers)
            .unwrap()
            .iter()
            .map(|t| (t.row, t.channel, t.sample_index, t.period))
            .collect()
    };
    assert_eq!(found(&[0], &headers), vec![(0, 0, 0, 428), (2, 0, 0, 100)]);
    // any order of patterns, and whatever the headers say
    assert_eq!(
        found(&[0, 0], &headers),
        vec![(0, 0, 0, 428), (2, 0, 0, 100), (64, 0, 0, 428), (66, 0, 0, 100)]
    );
    assert_eq!(found(&[], &headers), vec![]);
    let silent: Vec<SampleHeader> = (0..31)
        .map(|_| SampleHeader { name: String::new(), len_bytes: 0, volume: 0, repeat_start: 0, repeat_len: 0 })
        .collect();
    assert_eq!(found(&[0], &silent), vec![]);
    // of the second pattern one note is there
    let cut = collect_triggers(&data, HEADER_LEN, &vec![0, 1], &headers).unwrap_err();
    assert!(matches!(cut, ModError::NoteTruncated { pattern: 1, row: 0, channel: 2 }));
    assert_eq!(cut.message(), "pattern 1 row 0 channel 2 is truncated");
}

fn some_pattern() -> Pattern {
    Pattern {
        sample_rate: 48000,
        tempo_bpm: s(160.0),
        lines_per_beat: 4,
        rows: 16,
        voices: Table::new(),
        samples: Table::new(),
        tracks: vec![],
        metadata: PatternMetadata::default(),
    }
}

#[test]
fn read_song_wraps_bare_pattern() {
    let (song, was_song) = read_song(None, Some(some_pattern())).expect("read");
    assert!(!was_song, "bare pattern must not report song format");
    assert_eq!(song.patterns.len(), 1);
}

#[test]
fn read_song_reads_song_format() {
    let song = Song { patterns: vec![some_pattern(), some_pattern()], metadata: SongMetadata::default() };
    let (song, was_song) = read_song(Some(song), None).expect("read");
    assert!(was_song, "patterns array must report song format");
    assert_eq!(song.patterns.len(), 2);
}

#[test]
fn a_song_without_patterns_is_no_song() {
    let none = || Song { patterns: vec![], metadata: SongMetadata::default() };
    assert!(read_song(Some(none()), None).is_none());
    assert!(read_song(None, None).is_none());
    let (song, was_song) = read_song(Some(none()), Some(some_pattern())).unwrap();
    assert_eq!((song.patterns.len(), was_song), (1, false));
}

#[test]
fn a_file_changes_when_its_time_does() {
    assert!(has_changed(Some(2), Some(1)));
    assert!(has_changed(Some(2), None));
    assert!(!has_changed(Some(2), Some(2)));
    assert!(!has_changed(None, Some(2)));
}

#[test]
fn a_patch_is_spliced_where_it_fits() {
    let buffer = singles(&[0.0; 8]);
    let patch = singles(&[1.0, 2.0, 3.0, 4.0]);
    let out = splice(&buffer, &patch, 1, 2).unwrap();
    assert_eq!(floats(&out), vec![0.0, 0.0, 1.0, 2.0, 3.0, 4.0, 0.0, 0.0]);
    assert!(splice(&buffer, &patch, 3, 2).is_none());
    assert!(splice(&buffer, &patch, 0, 3).is_none());
    assert!(splice(&buffer, &patch, u64::MAX, 2).is_none());
}

#[test]
fn a_loop_comes_round() {
    let src = singles(&[0.1, -0.1, 0.2, -0.2]);
    let none = vec![];
    let mut heads = Heads { play: 2, preview: 0 };
    let mut out = singles(&[9.0; 6]);
    fill(&mut out, 2, &src, &none, &mut heads, false);
    assert_eq!(floats(&out), vec![0.2, -0.2, 0.1, -0.1, 0.2, -0.2]);
    assert_eq!((heads.play, heads.preview), (0, 0));
}

#[test]
fn devices_have_their_channels() {
    let src = singles(&[0.1, -0.1, 0.2, -0.2]);
    let none = vec![];
    let mut heads = Heads { play: 5, preview: 0 };
    let mut out = singles(&[9.0; 7]);
    fill(&mut out, 3, &src, &none, &mut heads, false);
    // an odd head is moved back to its frame; other channels and the rest are as the frame goes
    assert_eq!(floats(&out), vec![0.1, -0.1, 0.0, 0.2, -0.2, 0.0, 0.1]);
    assert_eq!(heads.play, 2);
    let mut heads = Heads { play: 0, preview: 0 };
    let mut out = singles(&[9.0; 3]);
    fill(&mut out, 1, &src, &none, &mut heads, false);
    assert_eq!(floats(&out), vec![0.1, 0.2, 0.1]);
}

#[test]
fn pausing_is_silent_and_keeps_the_heads() {
    let src = singles(&[0.1, -0.1]);
    let mut heads = Heads { play: 0, preview: 1 };
    let mut out = singles(&[9.0; 4]);
    fill(&mut out, 2, &src, &src, &mut heads, true);
    assert_eq!(floats(&out), vec![0.0; 4]);
    assert_eq!((heads.play, heads.preview), (0, 1));
    let mut out = singles(&[9.0; 4]);
    fill(&mut out, 2, &vec![], &src, &mut heads, false);
    assert_eq!(floats(&out), vec![0.0; 4]);
}

#[test]
fn a_preview_plays_once_on_top() {
    let src = singles(&[0.5, -0.5]);
    let preview = singles(&[1.0, -1.0, 0.1, 0.1]);
    let mut heads = Heads { play: 0, preview: 0 };
    let mut out = singles(&[9.0; 6]);
    fill(&mut out, 2, &src, &preview, &mut heads, false);
    let mixed = 0.5_f32 + 0.1 * 0.7;
    assert_eq!(floats(&out), vec![1.0, -1.0, mixed, -0.5 + 0.1 * 0.7, 0.5, -0.5]);
    assert_eq!(heads.preview, 4);
}

#[test]
fn unsigned_devices_get_shifted_samples() {
    assert_eq!(to_unsigned(s(-1.0)), 0);
    assert_eq!(to_unsigned(s(1.0)), 65535);
    assert_eq!(to_unsigned(s(0.0)), 32767);
    assert_eq!(to_unsigned(s(7.0)), 65535);
    assert_eq!(to_unsigned(s(f32::NAN)), 0);
}

#[test]
fn a_relative_path_climbs_and_descends() {
    let path = |p: &str| p.split('/').map(|c| c.to_string()).collect::<Vec<String>>();
    assert_eq!(relativize(&path("/a/b/c"), &path("/a/d/x.wav")), vec!["..", "..", "d", "x.wav"]);
    assert_eq!(relativize(&path("/a"), &path("/a/x.wav")), vec!["x.wav"]);
    assert!(relativize(&path("/a"), &path("/a")).is_empty());
}

#[test]
fn the_playhead_stays_in_its_buffer() {
    assert_eq!(playhead_frame(10, 100), 5);
    assert_eq!(playhead_frame(100, 100), 50);
    assert_eq!(playhead_frame(201, 100), 50);
    assert_eq!(playhead_frame(u64::MAX, 0), 0);
}
