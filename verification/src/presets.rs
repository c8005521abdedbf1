//! Built-in instrument library.
//!
//! Patterns reference instruments by name; the pattern compiler injects the
//! voice definition and fills any track fields the pattern itself doesn't
//! override. Names are lowercase snake_case.

use vstd::prelude::*;

use crate::piece;
use crate::piece::{Envelope, FxNode, PitchEnv, PitchShape, SampleModel, VoiceDef, VoiceModel};
use crate::single::Single;
use crate::table::{copy_list, Replica, Table};

verus! {

/// An instrument: a voice, and defaults for the tracks that use it.
#[derive(Debug)]
pub struct Instrument {
    pub name: &'static str,
    pub category: Category,
    pub voice: VoiceDef,
    pub default_envelope: Envelope,
    pub default_fx: Vec<FxNode>,
    pub default_pitch_env: Option<PitchEnv>,
    pub default_duration_rows: Single,
    pub default_amp: Single,
    pub default_pan: Single,
}

/// What an instrument is for.
#[derive(Clone, Copy, Debug, PartialEq, Eq, Structural)]
pub enum Category {
    Bell,
    Pad,
    Lead,
    Bass,
    Drum,
    Drone,
    Glitch,
}

/// What an instrument says.
#[verifier::ext_equal]
pub struct InstrumentModel {
    pub name: Seq<char>,
    pub category: Category,
    pub voice: VoiceModel,
    pub default_envelope: Envelope,
    pub default_fx: Seq<FxNode>,
    pub default_pitch_env: Option<PitchEnv>,
    pub default_duration_rows: Single,
    pub default_amp: Single,
    pub default_pan: Single,
}

impl View for Instrument {
    type V = InstrumentModel;

    open spec fn view(&self) -> InstrumentModel {
        InstrumentModel {
            name: self.name@,
            category: self.category,
            voice: self.voice@,
            default_envelope: self.default_envelope,
            default_fx: self.default_fx@,
            default_pitch_env: self.default_pitch_env,
            default_duration_rows: self.default_duration_rows,
            default_amp: self.default_amp,
            default_pan: self.default_pan,
        }
    }
}

impl Replica for Instrument {
    fn replica(&self) -> (r: Self) {
        Instrument {
            name: self.name,
            category: self.category,
            voice: self.voice.replica(),
            default_envelope: self.default_envelope,
            default_fx: copy_list(&self.default_fx),
            default_pitch_env: self.default_pitch_env,
            default_duration_rows: self.default_duration_rows,
            default_amp: self.default_amp,
            default_pan: self.default_pan,
        }
    }
}

/// Every instrument of the library, in order.
pub open spec fn instruments() -> Seq<InstrumentModel> {
    seq![
        aphex_pluck_model(),
        aphex_bell_model(),
        glassy_bell_model(),
        metallic_bell_model(),
        warm_pad_model(),
        dark_drone_model(),
        sub_kick_model(),
        noise_snare_model(),
        closed_hat_model(),
        bass_pulse_model(),
        glitch_zap_model(),
    ]
}

/// The library by name: of the first `n` instruments.
pub open spec fn shelf(n: int) -> Map<Seq<char>, InstrumentModel>
    decreases n,
{
    if n <= 0 {
        Map::empty()
    } else {
        shelf(n - 1).insert(instruments()[n - 1].name, instruments()[n - 1])
    }
}

/// Every instrument, by name.
pub fn library() -> (r: Table<Instrument>)
    ensures
        r@ == shelf(instruments().len() as int),
{
    let all: Vec<Instrument> = vec![
        aphex_pluck(),
        aphex_bell(),
        glassy_bell(),
        metallic_bell(),
        warm_pad(),
        dark_drone(),
        sub_kick(),
        noise_snare(),
        closed_hat(),
        bass_pulse(),
        glitch_zap(),
    ];
    assert(all@.map_values(|i: Instrument| i@) =~= instruments());
    let mut out: Table<Instrument> = Table::new();
    let mut i: usize = 0;
    while i < all.len()
        invariant
            i <= all@.len(),
            all@.map_values(|i: Instrument| i@) == instruments(),
            out@ == shelf(i as int),
        decreases all.len() - i,
    {
        assert(instruments()[i as int] == all@[i as int]@);
        out.insert(all[i].name.to_owned(), all[i].replica());
        i = i + 1;
    }
    out
}

/// The instrument of a name.
pub fn get(name: &str) -> (r: Option<Instrument>)
    ensures
        match r {
            Some(i) => shelf(instruments().len() as int).dom().contains(name@) && i@ == shelf(
                instruments().len() as int,
            )[name@],
            None => !shelf(instruments().len() as int).dom().contains(name@),
        },
{
    let lib: Table<Instrument> = library();
    match lib.get(name) {
        Some(i) => Some(i.replica()),
        None => None,
    }
}

/// The names of the library, in order.
pub fn names() -> (r: Vec<&'static str>)
    ensures
        r@.map_values(|s: &'static str| s@) == instruments().map_values(|i: InstrumentModel| i.name),
{
    let r: Vec<&'static str> = vec![
        "aphex_pluck",
        "aphex_bell",
        "glassy_bell",
        "metallic_bell",
        "warm_pad",
        "dark_drone",
        "sub_kick",
        "noise_snare",
        "closed_hat",
        "bass_pulse",
        "glitch_zap",
    ];
    assert(r@.map_values(|s: &'static str| s@) =~= instruments().map_values(
        |i: InstrumentModel| i.name,
    ));
    r
}

proof fn lemma_shelf(n: int, name: Seq<char>)
    requires
        0 <= n <= instruments().len(),
    ensures
        shelf(n).dom().contains(name) <==> exists|i: int|
            0 <= i < n && (#[trigger] instruments()[i]).name == name,
        shelf(n).dom().contains(name) ==> shelf(n)[name].name == name,
    decreases n,
{
    if n > 0 {
        lemma_shelf(n - 1, name);
        assert(instruments()[n - 1].name == instruments()[n - 1].name);
    }
}

/// The names are those of the library, all of them and no others.
pub proof fn law_names_match_library(name: Seq<char>)
    ensures
        instruments().map_values(|i: InstrumentModel| i.name).contains(name) <==> shelf(
            instruments().len() as int,
        ).dom().contains(name),
{
    let names: Seq<Seq<char>> = instruments().map_values(|i: InstrumentModel| i.name);
    lemma_shelf(instruments().len() as int, name);
    if names.contains(name) {
        let i: int = choose|i: int| 0 <= i < names.len() && names[i] == name;
        assert(instruments()[i].name == name);
    }
    if shelf(instruments().len() as int).dom().contains(name) {
        let i: int = choose|i: int| 0 <= i < instruments().len() && (#[trigger] instruments()[i]).name == name;
        assert(names[i] == name);
    }
}

/// The voice of every instrument is sound by itself: it needs no sample, and
/// has an amplitude for each partial.
pub proof fn law_library_voices_are_sound(i: int, samples: Map<Seq<char>, SampleModel>)
    requires
        0 <= i < instruments().len(),
    ensures
        piece::voice_fault(instruments()[i].name, instruments()[i].voice, samples) is None,
{
}

/// An instrument of the library goes by its own name.
pub proof fn law_instrument_goes_by_its_name(name: Seq<char>)
    requires
        shelf(instruments().len() as int).dom().contains(name),
    ensures
        shelf(instruments().len() as int)[name].name == name,
{
    lemma_shelf(instruments().len() as int, name);
}

/// Plucky lead with a long reverb-ish tail built from cascaded comb delays.
/// "Avril 14th" / "Stone in Focus" territory: a piano-like attack
/// with a spacious bloom that lingers. Not a struck bell — see `aphex_bell`
/// for that.
pub open spec fn aphex_pluck_model() -> InstrumentModel {
    InstrumentModel {
        name: "aphex_pluck"@,
        category: Category::Lead,
        voice: VoiceModel::SinePartials {
            partials:   seq![Single::of_ratio(1, 1), Single::of_ratio(2, 1), Single::of_ratio(301, 100), Single::of_ratio(405, 100), Single::of_ratio(52, 10)],
            amplitudes: seq![Single::of_ratio(1, 1), Single::of_ratio(42, 100), Single::of_ratio(2, 10), Single::of_ratio(1, 10), Single::of_ratio(4, 100)],
            default_pan: Single::of_ratio(0, 1),
        },
        default_envelope: Envelope::Exp { attack: 40, tau: 2800 },
        default_fx: seq![
            FxNode::Bitcrush { bits: 10 },
            FxNode::CombDelay { delay_samples: 1500, feedback: Single::of_ratio(62, 100) },
            FxNode::CombDelay { delay_samples: 2200, feedback: Single::of_ratio(58, 100) },
            FxNode::CombDelay { delay_samples: 3300, feedback: Single::of_ratio(52, 100) },
            FxNode::CombDelay { delay_samples: 5000, feedback: Single::of_ratio(46, 100) },
        ],
        default_pitch_env: None,
        default_duration_rows: Single::of_ratio(3, 1),
        default_amp: Single::of_ratio(5, 10),
        default_pan: Single::of_ratio(0, 1),
    }
}

fn aphex_pluck() -> (r: Instrument)
    ensures
        r@ == aphex_pluck_model(),
{
    let r = Instrument {
        name: "aphex_pluck",
        category: Category::Lead,
        voice: VoiceDef::SinePartials {
            partials:   vec![Single::ratio(1, 1), Single::ratio(2, 1), Single::ratio(301, 100), Single::ratio(405, 100), Single::ratio(52, 10)],
            amplitudes: vec![Single::ratio(1, 1), Single::ratio(42, 100), Single::ratio(2, 10), Single::ratio(1, 10), Single::ratio(4, 100)],
            default_pan: Single::ratio(0, 1),
        },
        default_envelope: Envelope::Exp { attack: 40, tau: 2800 },
        default_fx: vec![
            FxNode::Bitcrush { bits: 10 },
            FxNode::CombDelay { delay_samples: 1500, feedback: Single::ratio(62, 100) },
            FxNode::CombDelay { delay_samples: 2200, feedback: Single::ratio(58, 100) },
            FxNode::CombDelay { delay_samples: 3300, feedback: Single::ratio(52, 100) },
            FxNode::CombDelay { delay_samples: 5000, feedback: Single::ratio(46, 100) },
        ],
        default_pitch_env: None,
        default_duration_rows: Single::ratio(3, 1),
        default_amp: Single::ratio(5, 10),
        default_pan: Single::ratio(0, 1),
    };
    assert(r@ =~~= aphex_pluck_model());
    r
}

/// Risset-style inharmonic bell with slow bloom + bitcrush + comb tail.
/// Aphex Twin / Boards of Canada territory.
pub open spec fn aphex_bell_model() -> InstrumentModel {
    InstrumentModel {
        name: "aphex_bell"@,
        category: Category::Bell,
        voice: VoiceModel::SinePartials {
            partials:   seq![Single::of_ratio(5, 10), Single::of_ratio(1, 1), Single::of_ratio(2, 1), Single::of_ratio(25, 10), Single::of_ratio(3, 1), Single::of_ratio(42, 10), Single::of_ratio(54, 10), Single::of_ratio(68, 10)],
            amplitudes: seq![Single::of_ratio(1, 1), Single::of_ratio(7, 10), Single::of_ratio(6, 10), Single::of_ratio(5, 10), Single::of_ratio(4, 10), Single::of_ratio(3, 10), Single::of_ratio(2, 10), Single::of_ratio(15, 100)],
            default_pan: Single::of_ratio(0, 1),
        },
        default_envelope: Envelope::Exp { attack: 8000, tau: 36000 },
        default_fx: seq![
            FxNode::Bitcrush { bits: 8 },
            FxNode::CombDelay { delay_samples: 1800, feedback: Single::of_ratio(55, 100) },
        ],
        default_pitch_env: None,
        default_duration_rows: Single::of_ratio(4, 1),
        default_amp: Single::of_ratio(45, 100),
        default_pan: Single::of_ratio(0, 1),
    }
}

fn aphex_bell() -> (r: Instrument)
    ensures
        r@ == aphex_bell_model(),
{
    let r = Instrument {
        name: "aphex_bell",
        category: Category::Bell,
        voice: VoiceDef::SinePartials {
            partials:   vec![Single::ratio(5, 10), Single::ratio(1, 1), Single::ratio(2, 1), Single::ratio(25, 10), Single::ratio(3, 1), Single::ratio(42, 10), Single::ratio(54, 10), Single::ratio(68, 10)],
            amplitudes: vec![Single::ratio(1, 1), Single::ratio(7, 10), Single::ratio(6, 10), Single::ratio(5, 10), Single::ratio(4, 10), Single::ratio(3, 10), Single::ratio(2, 10), Single::ratio(15, 100)],
            default_pan: Single::ratio(0, 1),
        },
        default_envelope: Envelope::Exp { attack: 8000, tau: 36000 },
        default_fx: vec![
            FxNode::Bitcrush { bits: 8 },
            FxNode::CombDelay { delay_samples: 1800, feedback: Single::ratio(55, 100) },
        ],
        default_pitch_env: None,
        default_duration_rows: Single::ratio(4, 1),
        default_amp: Single::ratio(45, 100),
        default_pan: Single::ratio(0, 1),
    };
    assert(r@ =~~= aphex_bell_model());
    r
}

/// Bright glassy bell — fast attack, clearer top end, no FX.
pub open spec fn glassy_bell_model() -> InstrumentModel {
    InstrumentModel {
        name: "glassy_bell"@,
        category: Category::Bell,
        voice: VoiceModel::SinePartials {
            partials:   seq![Single::of_ratio(1, 1), Single::of_ratio(2, 1), Single::of_ratio(301, 100), Single::of_ratio(405, 100), Single::of_ratio(51, 10), Single::of_ratio(72, 10)],
            amplitudes: seq![Single::of_ratio(1, 1), Single::of_ratio(5, 10), Single::of_ratio(3, 10), Single::of_ratio(18, 100), Single::of_ratio(12, 100), Single::of_ratio(6, 100)],
            default_pan: Single::of_ratio(0, 1),
        },
        default_envelope: Envelope::Exp { attack: 300, tau: 18000 },
        default_fx: seq![],
        default_pitch_env: None,
        default_duration_rows: Single::of_ratio(3, 1),
        default_amp: Single::of_ratio(4, 10),
        default_pan: Single::of_ratio(0, 1),
    }
}

fn glassy_bell() -> (r: Instrument)
    ensures
        r@ == glassy_bell_model(),
{
    let r = Instrument {
        name: "glassy_bell",
        category: Category::Bell,
        voice: VoiceDef::SinePartials {
            partials:   vec![Single::ratio(1, 1), Single::ratio(2, 1), Single::ratio(301, 100), Single::ratio(405, 100), Single::ratio(51, 10), Single::ratio(72, 10)],
            amplitudes: vec![Single::ratio(1, 1), Single::ratio(5, 10), Single::ratio(3, 10), Single::ratio(18, 100), Single::ratio(12, 100), Single::ratio(6, 100)],
            default_pan: Single::ratio(0, 1),
        },
        default_envelope: Envelope::Exp { attack: 300, tau: 18000 },
        default_fx: vec![],
        default_pitch_env: None,
        default_duration_rows: Single::ratio(3, 1),
        default_amp: Single::ratio(4, 10),
        default_pan: Single::ratio(0, 1),
    };
    assert(r@ =~~= glassy_bell_model());
    r
}

/// Inharmonic struck-metal — clangorous, industrial.
pub open spec fn metallic_bell_model() -> InstrumentModel {
    InstrumentModel {
        name: "metallic_bell"@,
        category: Category::Bell,
        voice: VoiceModel::SinePartials {
            partials:   seq![Single::of_ratio(1, 1), Single::of_ratio(141, 100), Single::of_ratio(213, 100), Single::of_ratio(278, 100), Single::of_ratio(361, 100), Single::of_ratio(492, 100)],
            amplitudes: seq![Single::of_ratio(1, 1), Single::of_ratio(7, 10), Single::of_ratio(45, 100), Single::of_ratio(3, 10), Single::of_ratio(18, 100), Single::of_ratio(1, 10)],
            default_pan: Single::of_ratio(0, 1),
        },
        default_envelope: Envelope::Exp { attack: 40, tau: 9000 },
        default_fx: seq![
            FxNode::Bitcrush { bits: 5 },
            FxNode::CombDelay { delay_samples: 2400, feedback: Single::of_ratio(5, 10) },
        ],
        default_pitch_env: None,
        default_duration_rows: Single::of_ratio(2, 1),
        default_amp: Single::of_ratio(42, 100),
        default_pan: Single::of_ratio(0, 1),
    }
}

fn metallic_bell() -> (r: Instrument)
    ensures
        r@ == metallic_bell_model(),
{
    let r = Instrument {
        name: "metallic_bell",
        category: Category::Bell,
        voice: VoiceDef::SinePartials {
            partials:   vec![Single::ratio(1, 1), Single::ratio(141, 100), Single::ratio(213, 100), Single::ratio(278, 100), Single::ratio(361, 100), Single::ratio(492, 100)],
            amplitudes: vec![Single::ratio(1, 1), Single::ratio(7, 10), Single::ratio(45, 100), Single::ratio(3, 10), Single::ratio(18, 100), Single::ratio(1, 10)],
            default_pan: Single::ratio(0, 1),
        },
        default_envelope: Envelope::Exp { attack: 40, tau: 9000 },
        default_fx: vec![
            FxNode::Bitcrush { bits: 5 },
            FxNode::CombDelay { delay_samples: 2400, feedback: Single::ratio(5, 10) },
        ],
        default_pitch_env: None,
        default_duration_rows: Single::ratio(2, 1),
        default_amp: Single::ratio(42, 100),
        default_pan: Single::ratio(0, 1),
    };
    assert(r@ =~~= metallic_bell_model());
    r
}

/// Warm slow pad — gentle bloom, lush partials, soft bitcrush.
pub open spec fn warm_pad_model() -> InstrumentModel {
    InstrumentModel {
        name: "warm_pad"@,
        category: Category::Pad,
        voice: VoiceModel::SinePartials {
            partials:   seq![Single::of_ratio(1, 1), Single::of_ratio(2, 1), Single::of_ratio(3, 1), Single::of_ratio(4, 1), Single::of_ratio(5, 1)],
            amplitudes: seq![Single::of_ratio(1, 1), Single::of_ratio(5, 10), Single::of_ratio(3, 10), Single::of_ratio(15, 100), Single::of_ratio(8, 100)],
            default_pan: Single::of_ratio(0, 1),
        },
        default_envelope: Envelope::Adsr {
            attack: 24000, decay: 6000, sustain: Single::of_ratio(7, 10), release: 24000,
        },
        default_fx: seq![FxNode::Bitcrush { bits: 9 }],
        default_pitch_env: None,
        default_duration_rows: Single::of_ratio(8, 1),
        default_amp: Single::of_ratio(35, 100),
        default_pan: Single::of_ratio(0, 1),
    }
}

fn warm_pad() -> (r: Instrument)
    ensures
        r@ == warm_pad_model(),
{
    let r = Instrument {
        name: "warm_pad",
        category: Category::Pad,
        voice: VoiceDef::SinePartials {
            partials:   vec![Single::ratio(1, 1), Single::ratio(2, 1), Single::ratio(3, 1), Single::ratio(4, 1), Single::ratio(5, 1)],
            amplitudes: vec![Single::ratio(1, 1), Single::ratio(5, 10), Single::ratio(3, 10), Single::ratio(15, 100), Single::ratio(8, 100)],
            default_pan: Single::ratio(0, 1),
        },
        default_envelope: Envelope::Adsr {
            attack: 24000, decay: 6000, sustain: Single::ratio(7, 10), release: 24000,
        },
        default_fx: vec![FxNode::Bitcrush { bits: 9 }],
        default_pitch_env: None,
        default_duration_rows: Single::ratio(8, 1),
        default_amp: Single::ratio(35, 100),
        default_pan: Single::ratio(0, 1),
    };
    assert(r@ =~~= warm_pad_model());
    r
}

/// Long low sine drone — for beds, builds, atmosphere.
pub open spec fn dark_drone_model() -> InstrumentModel {
    InstrumentModel {
        name: "dark_drone"@,
        category: Category::Drone,
        voice: VoiceModel::Sine { default_pan: Single::of_ratio(0, 1) },
        default_envelope: Envelope::Adsr {
            attack: 48000, decay: 12000, sustain: Single::of_ratio(6, 10), release: 96000,
        },
        default_fx: seq![],
        default_pitch_env: None,
        default_duration_rows: Single::of_ratio(16, 1),
        default_amp: Single::of_ratio(22, 100),
        default_pan: Single::of_ratio(0, 1),
    }
}

fn dark_drone() -> (r: Instrument)
    ensures
        r@ == dark_drone_model(),
{
    let r = Instrument {
        name: "dark_drone",
        category: Category::Drone,
        voice: VoiceDef::Sine { default_pan: Single::ratio(0, 1) },
        default_envelope: Envelope::Adsr {
            attack: 48000, decay: 12000, sustain: Single::ratio(6, 10), release: 96000,
        },
        default_fx: vec![],
        default_pitch_env: None,
        default_duration_rows: Single::ratio(16, 1),
        default_amp: Single::ratio(22, 100),
        default_pan: Single::ratio(0, 1),
    };
    assert(r@ =~~= dark_drone_model());
    r
}

/// Sine-based kick with hard pitch sweep — the real "boof".
pub open spec fn sub_kick_model() -> InstrumentModel {
    InstrumentModel {
        name: "sub_kick"@,
        category: Category::Drum,
        voice: VoiceModel::Sine { default_pan: Single::of_ratio(0, 1) },
        default_envelope: Envelope::Exp { attack: 30, tau: 3500 },
        default_fx: seq![],
        default_pitch_env: Some(PitchEnv {
            from_ratio: Single::of_ratio(4, 1), to_ratio: Single::of_ratio(1, 1),
            time_samples: 2400, shape: PitchShape::Exp,
        }),
        default_duration_rows: Single::of_ratio(15, 10),
        default_amp: Single::of_ratio(95, 100),
        default_pan: Single::of_ratio(0, 1),
    }
}

fn sub_kick() -> (r: Instrument)
    ensures
        r@ == sub_kick_model(),
{
    let r = Instrument {
        name: "sub_kick",
        category: Category::Drum,
        voice: VoiceDef::Sine { default_pan: Single::ratio(0, 1) },
        default_envelope: Envelope::Exp { attack: 30, tau: 3500 },
        default_fx: vec![],
        default_pitch_env: Some(PitchEnv {
            from_ratio: Single::ratio(4, 1), to_ratio: Single::ratio(1, 1),
            time_samples: 2400, shape: PitchShape::Exp,
        }),
        default_duration_rows: Single::ratio(15, 10),
        default_amp: Single::ratio(95, 100),
        default_pan: Single::ratio(0, 1),
    };
    assert(r@ =~~= sub_kick_model());
    r
}

/// Wide bandpass snare crack with bitcrush bite.
pub open spec fn noise_snare_model() -> InstrumentModel {
    InstrumentModel {
        name: "noise_snare"@,
        category: Category::Drum,
        voice: VoiceModel::NoiseBandpass { q: Single::of_ratio(2, 1), default_pan: Single::of_ratio(0, 1) },
        default_envelope: Envelope::Ad { attack: 60, decay: 6000 },
        default_fx: seq![FxNode::Bitcrush { bits: 7 }],
        default_pitch_env: None,
        default_duration_rows: Single::of_ratio(1, 1),
        default_amp: Single::of_ratio(6, 10),
        default_pan: Single::of_ratio(0, 1),
    }
}

fn noise_snare() -> (r: Instrument)
    ensures
        r@ == noise_snare_model(),
{
    let r = Instrument {
        name: "noise_snare",
        category: Category::Drum,
        voice: VoiceDef::NoiseBandpass { q: Single::ratio(2, 1), default_pan: Single::ratio(0, 1) },
        default_envelope: Envelope::Ad { attack: 60, decay: 6000 },
        default_fx: vec![FxNode::Bitcrush { bits: 7 }],
        default_pitch_env: None,
        default_duration_rows: Single::ratio(1, 1),
        default_amp: Single::ratio(6, 10),
        default_pan: Single::ratio(0, 1),
    };
    assert(r@ =~~= noise_snare_model());
    r
}

/// Tight high-Q noise click for closed hat / tick.
pub open spec fn closed_hat_model() -> InstrumentModel {
    InstrumentModel {
        name: "closed_hat"@,
        category: Category::Drum,
        voice: VoiceModel::NoiseBandpass { q: Single::of_ratio(6, 1), default_pan: Single::of_ratio(0, 1) },
        default_envelope: Envelope::Ad { attack: 20, decay: 1800 },
        default_fx: seq![],
        default_pitch_env: None,
        default_duration_rows: Single::of_ratio(4, 10),
        default_amp: Single::of_ratio(28, 100),
        default_pan: Single::of_ratio(0, 1),
    }
}

fn closed_hat() -> (r: Instrument)
    ensures
        r@ == closed_hat_model(),
{
    let r = Instrument {
        name: "closed_hat",
        category: Category::Drum,
        voice: VoiceDef::NoiseBandpass { q: Single::ratio(6, 1), default_pan: Single::ratio(0, 1) },
        default_envelope: Envelope::Ad { attack: 20, decay: 1800 },
        default_fx: vec![],
        default_pitch_env: None,
        default_duration_rows: Single::ratio(4, 10),
        default_amp: Single::ratio(28, 100),
        default_pan: Single::ratio(0, 1),
    };
    assert(r@ =~~= closed_hat_model());
    r
}

/// Bitcrushed sine bass — chunky and digital.
pub open spec fn bass_pulse_model() -> InstrumentModel {
    InstrumentModel {
        name: "bass_pulse"@,
        category: Category::Bass,
        voice: VoiceModel::Sine { default_pan: Single::of_ratio(0, 1) },
        default_envelope: Envelope::Exp { attack: 30, tau: 4500 },
        default_fx: seq![FxNode::Bitcrush { bits: 5 }],
        default_pitch_env: None,
        default_duration_rows: Single::of_ratio(1, 1),
        default_amp: Single::of_ratio(38, 100),
        default_pan: Single::of_ratio(0, 1),
    }
}

fn bass_pulse() -> (r: Instrument)
    ensures
        r@ == bass_pulse_model(),
{
    let r = Instrument {
        name: "bass_pulse",
        category: Category::Bass,
        voice: VoiceDef::Sine { default_pan: Single::ratio(0, 1) },
        default_envelope: Envelope::Exp { attack: 30, tau: 4500 },
        default_fx: vec![FxNode::Bitcrush { bits: 5 }],
        default_pitch_env: None,
        default_duration_rows: Single::ratio(1, 1),
        default_amp: Single::ratio(38, 100),
        default_pan: Single::ratio(0, 1),
    };
    assert(r@ =~~= bass_pulse_model());
    r
}

/// Glitch zap — short sine with extreme pitch sweep + stutter + bitcrush.
pub open spec fn glitch_zap_model() -> InstrumentModel {
    InstrumentModel {
        name: "glitch_zap"@,
        category: Category::Glitch,
        voice: VoiceModel::Sine { default_pan: Single::of_ratio(0, 1) },
        default_envelope: Envelope::Ad { attack: 20, decay: 3980 },
        default_fx: seq![
            FxNode::Stutter { slice_samples: 400, repeats: 10 },
            FxNode::Bitcrush { bits: 3 },
            FxNode::CombDelay { delay_samples: 1500, feedback: Single::of_ratio(5, 10) },
        ],
        default_pitch_env: Some(PitchEnv {
            from_ratio: Single::of_ratio(8, 1), to_ratio: Single::of_ratio(5, 10),
            time_samples: 1200, shape: PitchShape::Exp,
        }),
        default_duration_rows: Single::of_ratio(1, 1),
        default_amp: Single::of_ratio(4, 10),
        default_pan: Single::of_ratio(0, 1),
    }
}

fn glitch_zap() -> (r: Instrument)
    ensures
        r@ == glitch_zap_model(),
{
    let r = Instrument {
        name: "glitch_zap",
        category: Category::Glitch,
        voice: VoiceDef::Sine { default_pan: Single::ratio(0, 1) },
        default_envelope: Envelope::Ad { attack: 20, decay: 3980 },
        default_fx: vec![
            FxNode::Stutter { slice_samples: 400, repeats: 10 },
            FxNode::Bitcrush { bits: 3 },
            FxNode::CombDelay { delay_samples: 1500, feedback: Single::ratio(5, 10) },
        ],
        default_pitch_env: Some(PitchEnv {
            from_ratio: Single::ratio(8, 1), to_ratio: Single::ratio(5, 10),
            time_samples: 1200, shape: PitchShape::Exp,
        }),
        default_duration_rows: Single::ratio(1, 1),
        default_amp: Single::ratio(4, 10),
        default_pan: Single::ratio(0, 1),
    };
    assert(r@ =~~= glitch_zap_model());
    r
}

} // verus!
