use std::f32::consts::TAU;

use hound::{SampleFormat, WavSpec, WavWriter};

use rtracker::curve::Curve;
use rtracker::dsp::Biquad;
use rtracker::envelope::apply_envelope;
use rtracker::fx::{apply_chain, apply_fx};
use rtracker::mixer::{declick, mix_event, pan_gains, render_with_bank, render_with_dir, RenderError};
use rtracker::piece::{
    Envelope, Event, FxNode, Piece, PieceMetadata, Pitch, PitchEnv, PitchShape, SampleLoopMode, SampleRef,
    ValidationError, VoiceDef,
};
use rtracker::sample::{SampleBank, SampleLoadError};
use rtracker::single::Single;
use rtracker::table::Table;
use rtracker::voice::{
    freq_at, pitch_env_ratio, render_sample, render_sine, render_voice, to_hertz, VoiceCtx, XorShift,
};
use rtracker::wav::{decode, decode_wav_mono, quantize, write_mono_wav, write_stereo_f32, DecodeError, UnsupportedBits, WavInfo};

fn s(x: f32) -> Single {
    Single::of_bits(x.to_bits())
}

fn f(x: Single) -> f32 {
    f32::from_bits(x.bits)
}

fn singles(xs: &[f32]) -> Vec<Single> {
    xs.iter().map(|x| s(*x)).collect()
}

fn floats(xs: &[Single]) -> Vec<f32> {
    xs.iter().map(|x| f(*x)).collect()
}

fn math(c: Curve) -> Single {
    s(match c {
        Curve::Sin(x) => f(x).sin(),
        Curve::Cos(x) => f(x).cos(),
        Curve::Exp(x) => f(x).exp(),
        Curve::Pow(x, y) => f(x).powf(f(y)),
    })
}

/// A file of interleaved integers.
fn wav_file(channels: u16, bits: u16, samples: &[i32]) -> Vec<u8> {
    let spec = WavSpec { channels, sample_rate: 48000, bits_per_sample: bits, sample_format: SampleFormat::Int };
    let mut out = std::io::Cursor::new(Vec::new());
    let mut writer = WavWriter::new(&mut out, spec).expect("create wav");
    for x in samples {
        writer.write_sample(*x).expect("write sample");
    }
    writer.finalize().expect("finalize wav");
    out.into_inner()
}

/// A file of interleaved floats.
fn float_file(channels: u16, samples: &[f32]) -> Vec<u8> {
    let spec = WavSpec { channels, sample_rate: 44100, bits_per_sample: 32, sample_format: SampleFormat::Float };
    let mut out = std::io::Cursor::new(Vec::new());
    let mut writer = WavWriter::new(&mut out, spec).expect("create wav");
    for x in samples {
        writer.write_sample(*x).expect("write sample");
    }
    writer.finalize().expect("finalize wav");
    out.into_inner()
}

#[test]
fn reverse_reverses() {
    let mut b = singles(&[1.0, 2.0, 3.0, 4.0]);
    apply_fx(&FxNode::Reverse, &math, &mut b, 48000);
    assert_eq!(floats(&b), vec![4.0, 3.0, 2.0, 1.0]);
}

#[test]
fn stutter_repeats_first_slice() {
    let b: Vec<f32> = (0..10).map(|i| i as f32).collect();
    let mut b = singles(&b);
    apply_fx(&FxNode::Stutter { slice_samples: 3, repeats: 3 }, &math, &mut b, 48000);
    let b = floats(&b);
    // First slice = [0,1,2], repeated 3 times = [0,1,2,0,1,2,0,1,2], last sample untouched.
    assert_eq!(&b[..9], &[0.0, 1.0, 2.0, 0.0, 1.0, 2.0, 0.0, 1.0, 2.0]);
    assert_eq!(b[9], 9.0);
}

#[test]
fn comb_delay_repeats_impulse() {
    let mut b = singles(&[0.0; 20]);
    b[0] = s(1.0);
    apply_fx(&FxNode::CombDelay { delay_samples: 5, feedback: s(0.5) }, &math, &mut b, 48000);
    let b = floats(&b);
    // Impulse should re-appear at n=5, n=10, n=15 with decaying amp.
    assert!((b[0] - 1.0).abs() < 1e-6);
    assert!((b[5] - 0.5).abs() < 1e-6);
    assert!((b[10] - 0.25).abs() < 1e-6);
    assert!((b[15] - 0.125).abs() < 1e-6);
}

/// RMS of a unit sine at `freq` after passing through `node`. Used to check
/// that filters pass/reject the bands they should.
fn filtered_rms(node: FxNode, freq: f32, sr: u32) -> f32 {
    let n = sr as usize; // one second
    let buf: Vec<f32> = (0..n).map(|i| (TAU * freq * i as f32 / sr as f32).sin()).collect();
    let mut buf = singles(&buf);
    apply_fx(&node, &math, &mut buf, sr);
    let buf = floats(&buf);
    // Skip the filter's startup transient.
    let tail = &buf[sr as usize / 10..];
    (tail.iter().map(|s| s * s).sum::<f32>() / tail.len() as f32).sqrt()
}

#[test]
fn lowpass_attenuates_above_cutoff_and_passes_below() {
    let low = filtered_rms(FxNode::Lowpass { cutoff_hz: s(1000.0), q: s(0.707) }, 100.0, 48000);
    let high = filtered_rms(FxNode::Lowpass { cutoff_hz: s(1000.0), q: s(0.707) }, 10000.0, 48000);
    assert!(low > 0.6, "low tone should pass, rms {low}");
    assert!(high < 0.1, "high tone should be cut, rms {high}");
}

#[test]
fn highpass_attenuates_below_cutoff_and_passes_above() {
    let low = filtered_rms(FxNode::Highpass { cutoff_hz: s(1000.0), q: s(0.707) }, 100.0, 48000);
    let high = filtered_rms(FxNode::Highpass { cutoff_hz: s(1000.0), q: s(0.707) }, 10000.0, 48000);
    assert!(high > 0.6, "high tone should pass, rms {high}");
    assert!(low < 0.1, "low tone should be cut, rms {low}");
}

#[test]
fn bandpass_passes_center_rejects_far_bands() {
    let node = FxNode::Bandpass { center_hz: s(1000.0), q: s(2.0) };
    let center = filtered_rms(node, 1000.0, 48000);
    let below = filtered_rms(node, 60.0, 48000);
    let above = filtered_rms(node, 12000.0, 48000);
    assert!(center > below * 3.0 && center > above * 3.0, "center {center} below {below} above {above}");
}

#[test]
fn bitcrush_quantizes() {
    let mut b = singles(&[0.1, 0.51, -0.6]);
    apply_fx(&FxNode::Bitcrush { bits: 2 }, &math, &mut b, 48000);
    // 2-bit signed → levels = 2, step 0.5.
    for s in &floats(&b) {
        let nearest = (s * 2.0).round() / 2.0;
        assert!((s - nearest).abs() < 1e-6);
    }
    assert_eq!(floats(&b), vec![0.0, 0.5, -0.5]);
}

#[test]
fn bitcrushing_twice_changes_nothing_more() {
    for bits in 1..=16u8 {
        let levels = (1u32 << (bits - 1)) as f32;
        let input: Vec<f32> = (-60..=60).map(|i| i as f32 / 47.0).collect();
        let mut once = singles(&input);
        apply_fx(&FxNode::Bitcrush { bits }, &math, &mut once, 48000);
        for (x, y) in input.iter().zip(floats(&once)) {
            let kept = x.clamp(-1.0, 1.0);
            assert!((-1.0..=1.0).contains(&y));
            assert_eq!((y * levels).fract(), 0.0);
            assert!((y - kept).abs() <= 0.5 / levels);
        }
        let mut twice = once.clone();
        apply_fx(&FxNode::Bitcrush { bits }, &math, &mut twice, 48000);
        assert_eq!(once, twice);
    }
}

#[test]
fn bitcrush_depth_is_clamped() {
    let mut b = singles(&[0.3, -0.9, 0.75]);
    apply_fx(&FxNode::Bitcrush { bits: 0 }, &math, &mut b, 48000);
    assert_eq!(floats(&b), vec![0.0, -1.0, 1.0]);
    let mut b = singles(&[0.3]);
    apply_fx(&FxNode::Bitcrush { bits: 200 }, &math, &mut b, 48000);
    let levels = 32768.0_f32;
    assert_eq!(f(b[0]), (0.3_f32 * levels).round() / levels);
}

#[test]
fn fewer_samples_are_held() {
    let mut b = singles(&[1.0, 2.0, 3.0, 4.0, 5.0]);
    apply_fx(&FxNode::SampleRateReduce { factor: 2 }, &math, &mut b, 48000);
    assert_eq!(floats(&b), vec![1.0, 1.0, 3.0, 3.0, 5.0]);
    for factor in [0, 1] {
        let mut b = singles(&[1.0, 2.0]);
        apply_fx(&FxNode::SampleRateReduce { factor }, &math, &mut b, 48000);
        assert_eq!(floats(&b), vec![1.0, 2.0]);
    }
}

#[test]
fn effects_that_do_nothing() {
    for node in [
        FxNode::Stutter { slice_samples: 0, repeats: 3 },
        FxNode::Stutter { slice_samples: 2, repeats: 0 },
        FxNode::Stutter { slice_samples: 9, repeats: 3 },
        FxNode::CombDelay { delay_samples: 0, feedback: s(0.5) },
        FxNode::CombDelay { delay_samples: 3, feedback: s(0.5) },
    ] {
        let mut b = singles(&[1.0, 2.0, 3.0]);
        apply_fx(&node, &math, &mut b, 48000);
        assert_eq!(floats(&b), vec![1.0, 2.0, 3.0], "{node:?}");
        assert_eq!(b.len(), 3);
    }
}

#[test]
fn a_chain_applies_its_effects_in_order() {
    let mut b = singles(&[1.0, 2.0, 3.0, 4.0]);
    let chain = vec![FxNode::Reverse, FxNode::SampleRateReduce { factor: 2 }];
    apply_chain(&chain, &math, &mut b, 48000);
    assert_eq!(floats(&b), vec![4.0, 4.0, 2.0, 2.0]);
    // twice reversed is as before
    let mut b = singles(&[1.0, 2.0, 3.0]);
    apply_chain(&vec![FxNode::Reverse, FxNode::Reverse], &math, &mut b, 48000);
    assert_eq!(floats(&b), vec![1.0, 2.0, 3.0]);
}

#[test]
fn a_filter_has_the_cookbook_coefficients() {
    let b = Biquad::lowpass(&math, s(48000.0), s(1000.0), s(0.707));
    let w = TAU * 1000.0_f32 / 48000.0;
    let (sin, cos) = (w.sin(), w.cos());
    let alpha = sin / (2.0 * 0.707);
    let k = (1.0 - cos) / 2.0;
    let a0 = 1.0 + alpha;
    assert!((f(b.b0) - k / a0).abs() < 1e-6);
    assert!((f(b.b1) - (1.0 - cos) / a0).abs() < 1e-6);
    assert!((f(b.a1) - -2.0 * cos / a0).abs() < 1e-6);
    assert!((f(b.a2) - (1.0 - alpha) / a0).abs() < 1e-6);
    let mut b = b;
    let y = b.process(s(1.0));
    assert_eq!(y, b.b0);
    assert_eq!(b.x1, s(1.0));
    assert_eq!(b.y1, y);
}

#[test]
fn envelopes_have_their_values() {
    let ones = [1.0_f32; 8];
    let mut b = singles(&ones);
    apply_envelope(&Envelope::Ad { attack: 2, decay: 4 }, &math, &mut b);
    assert_eq!(floats(&b), vec![0.0, 0.5, 1.0, 0.75, 0.5, 0.25, 0.0, 0.0]);
    let mut b = singles(&ones);
    apply_envelope(&Envelope::Gate, &math, &mut b);
    assert_eq!(floats(&b), ones);
    let mut b = singles(&ones);
    apply_envelope(&Envelope::Adsr { attack: 2, decay: 2, sustain: s(0.5), release: 2 }, &math, &mut b);
    assert_eq!(floats(&b), vec![0.0, 0.5, 1.0, 0.75, 0.5, 0.5, 0.5, 0.25]);
    let mut b = singles(&ones);
    apply_envelope(&Envelope::Exp { attack: 2, tau: 4 }, &math, &mut b);
    let e = |k: f32| (-k / 4.0).exp();
    assert_eq!(floats(&b), vec![0.0, 0.5, e(0.0), e(1.0), e(2.0), e(3.0), e(4.0), e(5.0)]);
    let mut none: Vec<Single> = vec![];
    apply_envelope(&Envelope::Ad { attack: u64::MAX, decay: u64::MAX }, &math, &mut none);
    assert!(none.is_empty());
}

#[test]
fn pan_centre_equal_power() {
    let (l, r) = pan_gains(&math, s(0.0));
    let (l, r) = (f(l), f(r));
    assert!((l - r).abs() < 1e-6);
    assert!((l * l + r * r - 1.0).abs() < 1e-6);
}

#[test]
fn pan_extremes() {
    let (l, r) = pan_gains(&math, s(-1.0));
    let (l, r) = (f(l), f(r));
    assert!((l - 1.0).abs() < 1e-6 && r.abs() < 1e-6);
    let (l, r) = pan_gains(&math, s(1.0));
    let (l, r) = (f(l), f(r));
    assert!(l.abs() < 1e-6 && (r - 1.0).abs() < 1e-6);
}

#[test]
fn panning_turns_a_quarter() {
    // the angle itself in place of its cosine and sine
    let angle = |c: Curve| match c {
        Curve::Sin(x) | Curve::Cos(x) => x,
        _ => s(f32::NAN),
    };
    let turn = |pan: f32| f(pan_gains(&angle, s(pan)).0);
    let quarter = std::f32::consts::FRAC_PI_2;
    assert_eq!((turn(-1.0), turn(0.0), turn(1.0)), (0.0, std::f32::consts::FRAC_PI_4, quarter));
    assert_eq!((turn(-3.0), turn(7.0)), (0.0, quarter));
    for i in 0..=400 {
        let (l, r) = pan_gains(&math, s(i as f32 / 200.0 - 1.0));
        let (l, r) = (f(l) as f64, f(r) as f64);
        assert!((l * l + r * r - 1.0).abs() < 1e-6);
    }
    let turns: Vec<f32> = (0..=400).map(|i| turn(i as f32 / 200.0 - 1.0)).collect();
    assert!(turns.windows(2).all(|w| w[0] <= w[1]));
}

#[test]
fn declick_ramps_edges_to_near_zero() {
    let mut buf = singles(&[1.0; 4800]); // 100 ms @ 48k
    declick(&mut buf, 48000);
    let buf = floats(&buf);
    // Edges are pulled down; the body is untouched.
    assert!(buf[0] < 0.05);
    assert!(buf[buf.len() - 1] < 0.05);
    assert!((buf[2400] - 1.0).abs() < 1e-6);
    // No step larger than one fade increment anywhere along the ramp.
    let max_jump = buf.windows(2).map(|w| (w[1] - w[0]).abs()).fold(0.0, f32::max);
    assert!(max_jump < 0.02, "max jump {max_jump}");
}

fn ev(freq: f32, dur: u64) -> Event {
    Event {
        t: 0,
        voice: "v".into(),
        freq: Some(Pitch::Hz(s(freq))),
        dur,
        amp: s(1.0),
        pan: s(0.0),
        envelope: Envelope::Gate,
        fx: vec![],
        pitch_ratio: None,
        pitch_env: None,
    }
}

fn piece(def: VoiceDef, duration_samples: u64, events: Vec<Event>) -> Piece {
    let mut voices = Table::new();
    voices.insert("v".to_string(), def);
    Piece {
        sample_rate: 48000,
        duration_samples,
        voices,
        samples: Table::new(),
        events,
        metadata: PieceMetadata::default(),
    }
}

#[test]
fn render_rejects_mismatched_sine_partials_before_mixing() {
    let def = VoiceDef::SinePartials { partials: singles(&[1.0, 2.0]), amplitudes: singles(&[1.0]), default_pan: s(0.0) };
    let mut e = ev(440.0, 100);
    e.amp = s(0.5);
    let err = render_with_bank(&piece(def, 100, vec![e]), &SampleBank::empty(), &math).expect_err("render should fail");
    assert!(matches!(
        err,
        RenderError::Validation(ValidationError::BadSinePartialsLength { .. })
    ));
}

#[test]
fn a_rendered_sine_is_audible_and_in_range() {
    let mut e = ev(440.0, 9600);
    e.pan = s(-1.0);
    let p = piece(VoiceDef::Sine { default_pan: s(0.0) }, 9600, vec![ev(440.0, 9600), ev(440.0, 9600), e]);
    let buf = floats(&render_with_bank(&p, &SampleBank::empty(), &math).expect("render"));
    assert_eq!(buf.len() as u64, p.duration_samples * 2);
    let nonzero = buf.iter().filter(|s| s.abs() > 1e-6).count();
    assert!(nonzero > buf.len() / 10, "expected audible signal, got {nonzero} non-zero samples");
    assert!(buf.iter().all(|s| (-1.0..=1.0).contains(s)), "samples must be clamped to [-1, 1]");
    assert!(buf.iter().any(|s| *s == 1.0), "three voices are louder than one");
    let wav = write_stereo_f32(p.sample_rate, &singles(&buf)).expect("write wav");
    assert!(wav.len() > 1024, "wav file too small: {} bytes", wav.len());
}

#[test]
fn an_event_sounds_in_its_own_frames_only() {
    let mut e = ev(440.0, 100);
    e.t = 50;
    let p = piece(VoiceDef::Sine { default_pan: s(0.0) }, 300, vec![e]);
    let buf = floats(&render_with_bank(&p, &SampleBank::empty(), &math).expect("render"));
    assert!(buf[..100].iter().all(|x| *x == 0.0));
    assert!(buf[300..].iter().all(|x| *x == 0.0));
    assert!(buf[100..300].iter().any(|x| *x != 0.0));
    // the same event earlier sounds the same
    let q = piece(VoiceDef::Sine { default_pan: s(0.0) }, 300, vec![ev(440.0, 100)]);
    let early = floats(&render_with_bank(&q, &SampleBank::empty(), &math).expect("render"));
    assert_eq!(early[..200], buf[100..300]);
}

#[test]
fn an_event_is_cut_where_the_buffer_ends() {
    let bank = SampleBank::empty();
    let ctx = VoiceCtx { sample_rate: 48000, bank: &bank };
    let def = VoiceDef::Sine { default_pan: s(0.0) };
    let mixed = |t: u64, len: usize| {
        let mut e = ev(440.0, 100);
        e.t = t;
        let mut master = singles(&vec![0.25; len]);
        mix_event(&def, &e, &ctx, &math, &mut master);
        floats(&master)
    };
    let whole = mixed(10, 220);
    assert_eq!(mixed(10, 100), whole[..100]);
    // half a frame at the end is left alone
    assert_eq!(mixed(10, 101)[..100], whole[..100]);
    assert_eq!(mixed(10, 101)[100], 0.25);
    assert_eq!(mixed(60, 100), vec![0.25; 100]);
}

#[test]
fn mixing_is_exact() {
    // one frame of a sample, faded by declick, amplified and panned
    let mut bank = SampleBank::empty();
    bank.samples.insert("s".to_string(), singles(&[1.0; 400]));
    let mut e = ev(1.0, 400);
    e.amp = s(0.5);
    e.pan = s(-1.0);
    let mut p = piece(
        VoiceDef::Sample { sample_id: "s".to_string(), loop_mode: SampleLoopMode::OneShot },
        400,
        vec![e],
    );
    p.samples.insert(
        "s".to_string(),
        SampleRef { path: "s.wav".to_string(), start_sample: 0, end_sample: 0, label: None },
    );
    let buf = floats(&render_with_bank(&p, &bank, &math).expect("render"));
    assert_eq!(buf[400], 0.5);
    // 120 samples of fade at 48 kHz
    assert_eq!(buf[0], 0.5 * (0.5_f32 / 120.0));
    assert_eq!(buf[2], 0.5 * (1.5_f32 / 120.0));
    assert_eq!(buf[798], buf[0]);
    assert!(buf[401].abs() < 1e-6);
}

#[test]
fn a_missing_sample_is_silent() {
    let def = VoiceDef::Sample { sample_id: "none".to_string(), loop_mode: SampleLoopMode::Loop };
    let bank = SampleBank::empty();
    let mut out = singles(&[0.5; 10]);
    render_voice(&def, &ev(1.0, 10), &VoiceCtx { sample_rate: 48000, bank: &bank }, &math, &mut out);
    assert_eq!(floats(&out), vec![0.0; 10]);
}

#[test]
fn rendering_reports_invalid_pieces_and_files() {
    let mut e = ev(1.0, 10);
    e.voice = "w".to_string();
    let p = piece(VoiceDef::Sine { default_pan: s(0.0) }, 10, vec![e]);
    assert!(matches!(
        render_with_bank(&p, &SampleBank::empty(), &math),
        Err(RenderError::Validation(ValidationError::UnknownVoice { index: 0, .. }))
    ));
    let mut p = piece(VoiceDef::Sine { default_pan: s(0.0) }, 10, vec![ev(1.0, 10)]);
    p.samples.insert(
        "s".to_string(),
        SampleRef { path: "s.wav".to_string(), start_sample: 0, end_sample: 0, label: None },
    );
    assert!(matches!(
        render_with_dir(&p, &vec![vec![1, 2, 3]], &math),
        Err(RenderError::SampleLoad(SampleLoadError::Read { id, path, .. })) if id == "s" && path == "s.wav"
    ));
    assert_eq!(render_with_dir(&p, &vec![wav_file(1, 16, &[5])], &math).unwrap().len(), 20);
}

fn sampled(start_sample: u64, end_sample: u64) -> Piece {
    let mut p = piece(VoiceDef::Sine { default_pan: s(0.0) }, 100, vec![]);
    p.samples.insert(
        "s".to_string(),
        SampleRef { path: "slice.wav".to_string(), start_sample, end_sample, label: None },
    );
    p
}

#[test]
fn end_sample_zero_slices_from_start_to_end_of_file() {
    let wav = wav_file(1, 16, &[0, 1024, 2048, 4096]);
    let bank = SampleBank::load(&sampled(2, 0), &vec![wav]).expect("load sample bank");
    let loaded = floats(bank.samples.get("s").expect("sample exists"));
    assert_eq!(loaded.len(), 2);
    assert!((loaded[0] - 2048.0 / i16::MAX as f32).abs() < 1e-6);
    assert!((loaded[1] - 4096.0 / i16::MAX as f32).abs() < 1e-6);
}

#[test]
fn explicit_sample_end_still_slices_exclusively() {
    let wav = wav_file(1, 16, &[0, 1024, 2048, 4096]);
    let bank = SampleBank::load(&sampled(1, 3), &vec![wav]).expect("load sample bank");
    let loaded = floats(bank.samples.get("s").expect("sample exists"));
    assert_eq!(loaded.len(), 2);
    assert!((loaded[0] - 1024.0 / i16::MAX as f32).abs() < 1e-6);
    assert!((loaded[1] - 2048.0 / i16::MAX as f32).abs() < 1e-6);
}

#[test]
fn eight_bit_wav_decodes_centered_without_dc_offset() {
    // 8-bit PCM stores unsigned bytes (silence at 128). hound applies the
    // bias for us when we write/read i8, so silence must come back ~0.0, not
    // pinned near +1.0.
    let spec = WavSpec { channels: 1, sample_rate: 48000, bits_per_sample: 8, sample_format: SampleFormat::Int };
    let mut out = std::io::Cursor::new(Vec::new());
    let mut writer = WavWriter::new(&mut out, spec).expect("create wav");
    for s in [0i8, 64, -64, 127, -127] {
        writer.write_sample(s).expect("write sample");
    }
    writer.finalize().expect("finalize wav");

    let bank = SampleBank::load(&sampled(0, 0), &vec![out.into_inner()]).expect("load sample bank");
    let loaded = floats(bank.samples.get("s").expect("sample exists"));
    assert_eq!(loaded.len(), 5);
    assert!(loaded[0].abs() < 1e-6, "silence (0) must decode to ~0, got {}", loaded[0]);
    assert!((loaded[1] - 64.0 / i8::MAX as f32).abs() < 1e-6);
    assert!((loaded[2] - (-64.0) / i8::MAX as f32).abs() < 1e-6);
    assert!((loaded[3] - 1.0).abs() < 1e-6);
}

#[test]
fn slices_outside_the_file_are_reported() {
    let wav = wav_file(1, 16, &[0, 1024, 2048, 4096]);
    for (start, end) in [(0, 5), (3, 2), (5, 0)] {
        assert!(matches!(
            SampleBank::load(&sampled(start, end), &vec![wav.clone()]),
            Err(SampleLoadError::SliceOutOfRange { id, start: a, end: b, len: 4 }) if id == "s" && a == start && b == end
        ));
    }
    // the empty slice at the end is fine
    let bank = SampleBank::load(&sampled(4, 0), &vec![wav]).unwrap();
    assert_eq!(bank.samples.get("s").unwrap().len(), 0);
}

#[test]
fn widths_have_their_own_full_scale() {
    let one = |bits: u16, x: i32| floats(&decode_wav_mono(&wav_file(1, bits, &[x])).unwrap().0);
    assert_eq!(one(16, 32767), vec![1.0]);
    // what lies beyond full scale is clamped
    assert_eq!(one(16, -32768), vec![-1.0]);
    assert_eq!(one(16, -32767), vec![-1.0]);
    assert_eq!(one(16, -32766), vec![-32766.0 / 32767.0]);
    assert_eq!(one(8, -128), vec![-1.0]);
    assert_eq!(one(8, 127), vec![1.0]);
    assert_eq!(one(8, 0), vec![0.0]);
    assert_eq!(one(24, -0x80_0000), vec![-1.0]);
    assert_eq!(one(24, 0x40_0000), vec![0.5]);
    assert_eq!(one(32, i32::MIN), vec![-1.0]);
    assert_eq!(one(32, 0x2000_0000), vec![0.25]);
}

#[test]
fn odd_widths_are_unsupported() {
    // 40 bits in five bytes: the header of a 16-bit file with the widths changed
    let mut wav = wav_file(1, 16, &[1, 2, 3, 4, 5]);
    let fmt = wav.windows(4).position(|w| w == b"fmt ").unwrap() + 8;
    wav[fmt + 8..fmt + 12].copy_from_slice(&(48000_u32 * 5).to_le_bytes());
    wav[fmt + 12] = 5;
    wav[fmt + 14] = 40;
    assert!(matches!(decode_wav_mono(&wav), Err(DecodeError::Unsupported(UnsupportedBits(40)))));
    assert!(matches!(
        SampleBank::load(&sampled(0, 0), &vec![wav]),
        Err(SampleLoadError::UnsupportedBits { id, bits: 40 }) if id == "s"
    ));
    assert!(matches!(decode_wav_mono(&vec![]), Err(DecodeError::Hound(_))));
    // the same, from a header
    let info = WavInfo { channels: 1, sample_rate: 1, bits_per_sample: 20, is_float: false, start: 44, count: 0 };
    assert!(matches!(decode(&vec![], info, &vec![]), Err(UnsupportedBits(20))));
}

#[test]
fn integers_decode_in_range() {
    let lowest = [(8, -128), (16, -32768), (24, -0x80_0000), (32, i32::MIN)];
    for (bits, low) in lowest {
        for channels in [1, 2, 3] {
            let samples = [low, low, low, -(low + 1), 0, low / 3, low, low, low, 0, 0, 0];
            let (mono, rate) = decode_wav_mono(&wav_file(channels, bits, &samples)).unwrap();
            assert_eq!(rate, 48000);
            assert!(floats(&mono).iter().all(|x| (-1.0..=1.0).contains(x)), "{bits} {channels}");
            assert_eq!(f(mono[0]), -1.0);
            assert_eq!(mono[mono.len() - 1].bits, 0);
        }
    }
}

#[test]
fn channels_are_averaged() {
    let (mono, rate) = decode_wav_mono(&wav_file(2, 16, &[32767, 0, -32767, 32767])).unwrap();
    assert_eq!((floats(&mono), rate), (vec![0.5, 0.0], 48000));
    let (mono, rate) = decode_wav_mono(&float_file(2, &[0.5, 0.25, 1.0, -1.0])).unwrap();
    assert_eq!((floats(&mono), rate), (vec![0.375, 0.0], 44100));
    let (mono, _) = decode_wav_mono(&float_file(3, &[0.1, 0.2, 0.3])).unwrap();
    assert_eq!(floats(&mono), vec![(0.1_f32 + 0.2 + 0.3) / 3.0]);
    let (mono, _) = decode_wav_mono(&float_file(1, &[0.1, -7.5])).unwrap();
    assert_eq!(floats(&mono), vec![0.1, -7.5]);
}

#[test]
fn a_cut_file_keeps_what_is_there() {
    let mut wav = float_file(1, &[0.5, 0.25, 0.125]);
    wav.truncate(wav.len() - 2);
    assert_eq!(floats(&decode_wav_mono(&wav).unwrap().0), vec![0.5, 0.25]);
    let mut wav = wav_file(1, 16, &[32767, 16384, 0]);
    wav.truncate(wav.len() - 2);
    assert_eq!(decode_wav_mono(&wav).unwrap().0.len(), 2);
}

#[test]
fn unreadable_samples_are_left_out() {
    let info = WavInfo { channels: 1, sample_rate: 8000, bits_per_sample: 16, is_float: false, start: 44, count: 3 };
    let (mono, rate) = decode(&vec![], info, &vec![Some(32767), None, Some(-32767)]).unwrap();
    assert_eq!((floats(&mono), rate), (vec![1.0, -1.0], 8000));
}

#[test]
fn a_written_stereo_file_reads_back_as_its_average() {
    let wav = write_stereo_f32(48000, &singles(&[0.5, 0.25, -1.0, 1.0])).unwrap();
    let spec = WavSpec { channels: 2, sample_rate: 48000, bits_per_sample: 32, sample_format: SampleFormat::Float };
    let reader = hound::WavReader::new(std::io::Cursor::new(wav.clone())).unwrap();
    assert_eq!(reader.spec(), spec);
    let read: Vec<f32> = reader.into_samples::<f32>().map(|x| x.unwrap()).collect();
    assert_eq!(read, vec![0.5, 0.25, -1.0, 1.0]);
    let (mono, rate) = decode_wav_mono(&wav).unwrap();
    assert_eq!((floats(&mono), rate), (vec![0.375, 0.0], 48000));
    // half a frame is no file
    assert!(write_stereo_f32(48000, &singles(&[0.5])).is_err());
    // no frame is an empty file
    assert_eq!(decode_wav_mono(&write_stereo_f32(1, &vec![]).unwrap()).unwrap().0.len(), 0);
}

#[test]
fn a_stereo_file_has_the_bytes_that_floats_would_have() {
    let samples = [0.5_f32, -0.25, 1e-40, f32::MAX];
    let spec = WavSpec { channels: 2, sample_rate: 22050, bits_per_sample: 32, sample_format: SampleFormat::Float };
    let mut out = std::io::Cursor::new(Vec::new());
    let mut writer = WavWriter::new(&mut out, spec).unwrap();
    for x in samples {
        writer.write_sample(x).unwrap();
    }
    writer.finalize().unwrap();
    assert_eq!(write_stereo_f32(22050, &singles(&samples)).unwrap(), out.into_inner());
}

#[test]
fn a_written_mono_file_reads_back_quantized() {
    assert_eq!(quantize(s(1.0)), 32767);
    assert_eq!(quantize(s(-2.0)), -32767);
    assert_eq!(quantize(s(0.5)), 16383);
    assert_eq!(quantize(s(0.25)), 8191);
    assert_eq!(quantize(s(f32::NAN)), 0);
    let wav = write_mono_wav(8287, &singles(&[1.0, -2.0, 0.25])).unwrap();
    let (mono, rate) = decode_wav_mono(&wav).unwrap();
    assert_eq!((floats(&mono), rate), (vec![1.0, -1.0, 8191.0 / 32767.0], 8287));
    let reader = hound::WavReader::new(std::io::Cursor::new(wav)).unwrap();
    assert_eq!((reader.spec().channels, reader.spec().bits_per_sample), (1, 16));
}

fn empty_ctx(bank: &SampleBank) -> VoiceCtx<'_> {
    VoiceCtx { sample_rate: 48000, bank }
}

fn nonzero(buf: &[f32]) -> bool {
    buf.iter().any(|s| s.abs() > 1e-6)
}

fn sound(def: &VoiceDef, e: &Event, n: usize) -> Vec<f32> {
    let bank = SampleBank::empty();
    let mut buf = vec![s(0.0); n];
    render_voice(def, e, &empty_ctx(&bank), &math, &mut buf);
    floats(&buf)
}

#[test]
fn sine_voice_produces_signal() {
    let buf = sound(&VoiceDef::Sine { default_pan: s(0.0) }, &ev(440.0, 480), 480);
    assert!(nonzero(&buf));
    assert!(buf.iter().all(|s| s.abs() <= 1.0001));
}

#[test]
fn partials_voice_produces_signal_within_unit() {
    let def = VoiceDef::SinePartials {
        partials: singles(&[1.0, 2.0, 3.0]),
        amplitudes: singles(&[1.0, 0.5, 0.25]),
        default_pan: s(0.0),
    };
    let buf = sound(&def, &ev(220.0, 480), 480);
    assert!(nonzero(&buf));
    assert!(buf.iter().all(|s| s.abs() <= 1.0001));
}

#[test]
fn noise_bandpass_voice_produces_signal() {
    let def = VoiceDef::NoiseBandpass { q: s(5.0), default_pan: s(0.0) };
    let buf = sound(&def, &ev(1000.0, 4800), 4800);
    assert!(nonzero(&buf));
}

#[test]
fn fm_voice_produces_bounded_signal() {
    let def = VoiceDef::Fm { modulator_ratio: s(2.0), modulation_index: s(3.0), default_pan: s(0.0) };
    let buf = sound(&def, &ev(220.0, 4800), 4800);
    assert!(nonzero(&buf));
    assert!(buf.iter().all(|s| s.abs() <= 1.0001));
}

#[test]
fn fm_zero_index_is_a_plain_sine() {
    // With modulation_index 0 the carrier is unmodulated, so it must match a
    // plain sine of the same frequency.
    let def = VoiceDef::Fm { modulator_ratio: s(2.0), modulation_index: s(0.0), default_pan: s(0.0) };
    let fm = sound(&def, &ev(440.0, 480), 480);
    let mut sine = vec![s(0.0); 480];
    render_sine(&ev(440.0, 480), 48000, &math, &mut sine);
    for (a, b) in fm.iter().zip(floats(&sine).iter()) {
        assert!((a - b).abs() < 1e-5);
    }
}

#[test]
fn pingpong_reverses_at_the_end() {
    // A monotonically rising ramp played at 2× should run up to the end and
    // then come back down, rather than jumping back to the start.
    let src: Vec<f32> = (0..8).map(|i| i as f32).collect();
    let mut out = vec![s(0.0); 16];
    let mut e = ev(0.0, 16);
    e.pitch_ratio = Some(s(2.0));
    render_sample(&e, &singles(&src), SampleLoopMode::PingPong, &mut out);
    let out = floats(&out);
    // It rises, peaks near the top, then descends — so the max is interior,
    // not at the final sample.
    let max_idx = out.iter().enumerate().max_by(|a, b| a.1.partial_cmp(b.1).unwrap()).unwrap().0;
    assert!(max_idx < out.len() - 1, "expected interior peak, got idx {max_idx}");
    assert!(*out.last().unwrap() < out[max_idx], "tail should descend after the fold");
}

#[test]
fn pitch_env_lowers_frequency_over_time() {
    // base 100 Hz, ratio 4→1 over 100 samples: starts at 400 Hz, ends at 100 Hz.
    let mut e = ev(100.0, 200);
    e.pitch_env = Some(PitchEnv {
        from_ratio: s(4.0), to_ratio: s(1.0),
        time_samples: 100, shape: PitchShape::Exp,
    });
    let start = f(freq_at(&math, &e, 0));
    let mid   = f(freq_at(&math, &e, 50));
    let end   = f(freq_at(&math, &e, 100));
    let after = f(freq_at(&math, &e, 150));
    assert!((start - 400.0).abs() < 0.01);
    assert!(mid > 100.0 && mid < 400.0);
    assert!((end - 100.0).abs() < 0.01);
    assert!((after - 100.0).abs() < 0.01);    // stays at to_ratio after time_samples
}

#[test]
fn sweeps_have_their_values() {
    let p = PitchEnv { from_ratio: s(4.0), to_ratio: s(1.0), time_samples: 100, shape: PitchShape::Linear };
    assert_eq!(f(pitch_env_ratio(&math, &p, 50)), 2.5);
    assert_eq!(f(pitch_env_ratio(&math, &p, u64::MAX)), 1.0);
    let q = PitchEnv { shape: PitchShape::Exp, ..p };
    assert_eq!(f(pitch_env_ratio(&math, &q, 50)), 4.0 * (1.0_f32 / 4.0).powf(0.5));
    let z = PitchEnv { time_samples: 0, ..p };
    assert_eq!(f(pitch_env_ratio(&math, &z, 0)), 4.0);
    assert_eq!(f(pitch_env_ratio(&math, &z, 1)), 1.0);
}

#[test]
fn keys_sound_at_equal_temperament() {
    assert_eq!(f(to_hertz(&math, Pitch::Key(69))), 440.0);
    assert_eq!(f(to_hertz(&math, Pitch::Key(81))), 880.0);
    assert_eq!(f(to_hertz(&math, Pitch::Key(60))), 440.0 * 2.0_f32.powf((60.0 - 69.0) / 12.0));
    assert_eq!(f(to_hertz(&math, Pitch::Hz(s(123.45)))), 123.45);
}

#[test]
fn noise_follows_its_seed() {
    let mut r = XorShift::new(1);
    let mut x: u64 = 1;
    for _ in 0..5 {
        x ^= x << 13;
        x ^= x >> 7;
        x ^= x << 17;
        assert_eq!(r.next_u64(), x);
    }
    let mut r = XorShift::new(0);
    let mut q = XorShift::new(0xDEAD_BEEF_CAFE_BABE);
    let n = f(r.next_f32());
    assert_eq!(n, f(q.next_f32()));
    assert!((-1.0..=1.0).contains(&n));
}

#[test]
fn samples_play_to_their_modes() {
    let src = singles(&[0.0, 1.0, 2.0, 3.0]);
    let play = |mode: SampleLoopMode, ratio: f32, n: usize| {
        let mut e = ev(1.0, n as u64);
        e.pitch_ratio = Some(s(ratio));
        let mut out = vec![s(9.0); n];
        render_sample(&e, &src, mode, &mut out);
        floats(&out)
    };
    assert_eq!(play(SampleLoopMode::OneShot, 1.0, 6)[..3], [0.0, 1.0, 2.0]);
    assert_eq!(play(SampleLoopMode::OneShot, 1.0, 6)[4..], [0.0, 0.0]);
    assert_eq!(play(SampleLoopMode::OneShot, 0.5, 6), vec![0.0, 0.5, 1.0, 1.5, 2.0, 2.5]);
    assert_eq!(play(SampleLoopMode::Loop, 1.0, 6), vec![0.0, 1.0, 2.0, 3.0, 0.0, 1.0]);
    assert_eq!(play(SampleLoopMode::PingPong, 1.0, 8), vec![0.0, 1.0, 2.0, 3.0, 2.0, 1.0, 0.0, 1.0]);
}

fn wrapped(phase: f32) -> f32 {
    if phase > TAU {
        phase - TAU
    } else {
        phase
    }
}

#[test]
fn voices_follow_their_formulas() {
    let n = 300;
    let mut e = ev(523.25, n as u64);
    e.t = 77;
    e.pitch_env = Some(PitchEnv { from_ratio: s(3.0), to_ratio: s(0.5), time_samples: 200, shape: PitchShape::Exp });
    let freq = |i: usize| {
        let t = (i.min(200) as f32) / 200.0;
        523.25_f32 * (3.0 * (0.5_f32 / 3.0).powf(t))
    };
    let sr = 48000.0_f32;

    let mut phase = 0.0_f32;
    let mut wanted = vec![];
    for i in 0..n {
        wanted.push(phase.sin());
        phase = wrapped(phase + TAU * freq(i) / sr);
    }
    assert_eq!(sound(&VoiceDef::Sine { default_pan: s(0.0) }, &e, n), wanted);

    let (partials, amplitudes) = ([1.0_f32, 2.01, 3.3], [1.0_f32, -0.5, 0.25]);
    let mut phases = [0.0_f32; 3];
    let mut wanted = vec![];
    for i in 0..n {
        let mut x = 0.0_f32;
        for k in 0..3 {
            x += (amplitudes[k] / 1.75) * phases[k].sin();
            phases[k] = wrapped(phases[k] + TAU * (freq(i) * partials[k]) / sr);
        }
        wanted.push(x);
    }
    let def = VoiceDef::SinePartials {
        partials: singles(&partials),
        amplitudes: singles(&amplitudes),
        default_pan: s(0.0),
    };
    assert_eq!(sound(&def, &e, n), wanted);

    let (mut carrier, mut modulator) = (0.0_f32, 0.0_f32);
    let mut wanted = vec![];
    for i in 0..n {
        wanted.push((carrier + 2.5 * modulator.sin()).sin());
        carrier = wrapped(carrier + TAU * freq(i) / sr);
        modulator = wrapped(modulator + TAU * freq(i) * 1.41 / sr);
    }
    let def = VoiceDef::Fm { modulator_ratio: s(1.41), modulation_index: s(2.5), default_pan: s(0.0) };
    assert_eq!(sound(&def, &e, n), wanted);

    let mut rng = XorShift::new(77u64.wrapping_add(0x9E37_79B9_7F4A_7C15));
    let mut filter = Biquad::bandpass(&math, s(sr), s(523.25), s(0.1));
    let mut wanted = vec![];
    for _ in 0..n {
        let x = ((rng.next_u64() >> 40) as f32 / 16777216.0) * 2.0 - 1.0;
        wanted.push(f(filter.process(s(x))));
    }
    let def = VoiceDef::NoiseBandpass { q: s(0.01), default_pan: s(0.0) };
    assert_eq!(sound(&def, &e, n), wanted);
}
