//! Pieces: what a renderer plays.
//!
//! A piece is a list of events on a timeline counted in samples, with the
//! voices that sound them and the samples those voices read.

use vstd::prelude::*;

use crate::closeness;
use crate::single;
use crate::single::Single;
use crate::table;
use crate::table::{copy_list, copy_text, Replica, Table};

verus! {

/// A renderable piece.
pub struct Piece {
    pub sample_rate: u32,
    pub duration_samples: u64,
    pub voices: Table<VoiceDef>,
    pub samples: Table<SampleRef>,
    pub events: Vec<Event>,
    pub metadata: PieceMetadata,
}

/// Notes about a piece that do not sound.
#[derive(Debug)]
pub struct PieceMetadata {
    pub title: Option<String>,
    pub seed: Option<u64>,
    pub generator: Option<String>,
    pub constraints_ref: Option<String>,
}

/// How a voice makes its sound.
#[derive(Debug)]
pub enum VoiceDef {
    Sine { default_pan: Single },
    SinePartials { partials: Vec<Single>, amplitudes: Vec<Single>, default_pan: Single },
    NoiseBandpass { q: Single, default_pan: Single },
    Fm { modulator_ratio: Single, modulation_index: Single, default_pan: Single },
    Sample { sample_id: String, loop_mode: SampleLoopMode },
}

/// What a sample voice does at the end of its sample.
#[derive(Clone, Copy, Debug, PartialEq, Eq, Structural)]
pub enum SampleLoopMode {
    OneShot,
    Loop,
    PingPong,
}

/// A slice of a sound file.
#[derive(Debug)]
pub struct SampleRef {
    pub path: String,
    /// Slice start within the file.
    pub start_sample: u64,
    /// Slice end (exclusive). 0 = play to end of file.
    pub end_sample: u64,
    pub label: Option<String>,
}

/// The pitch of an event: a frequency, or a key counted in semitones with
/// C-1 = 0 and A4 = 69, which sounds at `440 * 2^((key - 69) / 12)` Hz.
#[derive(Clone, Copy, Debug, PartialEq, Eq, Structural)]
pub enum Pitch {
    Hz(Single),
    Key(i64),
}

/// One trigger on the timeline.
#[derive(Debug)]
pub struct Event {
    pub t: u64,
    pub voice: String,
    pub freq: Option<Pitch>,
    pub dur: u64,
    pub amp: Single,
    pub pan: Single,
    pub envelope: Envelope,
    pub fx: Vec<FxNode>,
    pub pitch_ratio: Option<Single>,
    /// Modulates `freq` over the first `time_samples` of the event by a
    /// multiplier swept from `from_ratio` to `to_ratio`. After that, the
    /// frequency stays at `freq * to_ratio`.
    pub pitch_env: Option<PitchEnv>,
}

/// A sweep of an event's frequency.
#[derive(Clone, Copy, Debug, PartialEq, Eq, Structural)]
pub struct PitchEnv {
    pub from_ratio: Single,
    pub to_ratio: Single,
    pub time_samples: u64,
    pub shape: PitchShape,
}

/// How a sweep moves.
#[derive(Clone, Copy, Debug, PartialEq, Eq, Structural)]
pub enum PitchShape {
    Linear,
    /// Interpolation in log-frequency space, natural for kick drops.
    Exp,
}

impl Default for PitchShape {
    fn default() -> (r: Self)
        ensures
            r == PitchShape::Exp,
    {
        PitchShape::Exp
    }
}

/// The shape of a sweep that names none.
pub fn default_pitch_shape() -> (r: PitchShape)
    ensures
        r == PitchShape::Exp,
{
    PitchShape::Exp
}

/// How loud an event is over its time.
#[derive(Clone, Copy, Debug, PartialEq, Eq, Structural)]
pub enum Envelope {
    Ad { attack: u64, decay: u64 },
    Adsr { attack: u64, decay: u64, sustain: Single, release: u64 },
    Gate,
    Exp { attack: u64, tau: u64 },
}

/// One effect of a chain.
#[derive(Clone, Copy, Debug, PartialEq, Eq, Structural)]
pub enum FxNode {
    Bitcrush { bits: u8 },
    SampleRateReduce { factor: u32 },
    Reverse,
    Stutter { slice_samples: u64, repeats: u32 },
    CombDelay { delay_samples: u64, feedback: Single },
    Highpass { cutoff_hz: Single, q: Single },
    Lowpass { cutoff_hz: Single, q: Single },
    Bandpass { center_hz: Single, q: Single },
}

/// Why a piece cannot be rendered.
#[derive(Debug)]
pub enum ValidationError {
    /// An event plays a voice that the piece does not define.
    UnknownVoice { index: usize, voice: String },
    /// An event ends after the piece.
    EventPastEnd { index: usize, end: u64, duration: u64 },
    /// An amplitude outside `0..=1`.
    BadAmp { index: usize, amp: Single },
    /// A pan outside `-1..=1`.
    BadPan { index: usize, pan: Single },
    /// A field of an event that is infinite or not a number.
    NotFinite { index: usize, field: &'static str },
    /// A voice plays a sample that the piece does not define.
    UnknownSample { voice: String, sample_id: String },
    /// A voice gives its partials too few or too many amplitudes.
    BadSinePartialsLength { voice: String, partials: usize, amplitudes: usize },
}

/// What a piece's metadata says.
#[verifier::ext_equal]
pub struct MetadataModel {
    pub title: Option<Seq<char>>,
    pub seed: Option<u64>,
    pub generator: Option<Seq<char>>,
    pub constraints_ref: Option<Seq<char>>,
}

/// What a voice definition says.
#[verifier::ext_equal]
pub enum VoiceModel {
    Sine { default_pan: Single },
    SinePartials { partials: Seq<Single>, amplitudes: Seq<Single>, default_pan: Single },
    NoiseBandpass { q: Single, default_pan: Single },
    Fm { modulator_ratio: Single, modulation_index: Single, default_pan: Single },
    Sample { sample_id: Seq<char>, loop_mode: SampleLoopMode },
}

/// What a sample reference says.
#[verifier::ext_equal]
pub struct SampleModel {
    pub path: Seq<char>,
    pub start_sample: u64,
    pub end_sample: u64,
    pub label: Option<Seq<char>>,
}

/// What an event says.
#[verifier::ext_equal]
pub struct EventModel {
    pub t: u64,
    pub voice: Seq<char>,
    pub freq: Option<Pitch>,
    pub dur: u64,
    pub amp: Single,
    pub pan: Single,
    pub envelope: Envelope,
    pub fx: Seq<FxNode>,
    pub pitch_ratio: Option<Single>,
    pub pitch_env: Option<PitchEnv>,
}

/// What a piece says.
#[verifier::ext_equal]
pub struct PieceModel {
    pub sample_rate: u32,
    pub duration_samples: u64,
    pub voices: Map<Seq<char>, VoiceModel>,
    pub samples: Map<Seq<char>, SampleModel>,
    pub events: Seq<EventModel>,
    pub metadata: MetadataModel,
}

/// What a validation error says.
pub enum ValidationFault {
    UnknownVoice { index: usize, voice: Seq<char> },
    EventPastEnd { index: usize, end: u64, duration: u64 },
    BadAmp { index: usize, amp: Single },
    BadPan { index: usize, pan: Single },
    NotFinite { index: usize, field: Seq<char> },
    UnknownSample { voice: Seq<char>, sample_id: Seq<char> },
    BadSinePartialsLength { voice: Seq<char>, partials: nat, amplitudes: nat },
}

impl View for PieceMetadata {
    type V = MetadataModel;

    open spec fn view(&self) -> MetadataModel {
        MetadataModel {
            title: table::text(self.title),
            seed: self.seed,
            generator: table::text(self.generator),
            constraints_ref: table::text(self.constraints_ref),
        }
    }
}

impl View for VoiceDef {
    type V = VoiceModel;

    open spec fn view(&self) -> VoiceModel {
        match *self {
            VoiceDef::Sine { default_pan } => VoiceModel::Sine { default_pan },
            VoiceDef::SinePartials { partials, amplitudes, default_pan } => VoiceModel::SinePartials {
                partials: partials@,
                amplitudes: amplitudes@,
                default_pan,
            },
            VoiceDef::NoiseBandpass { q, default_pan } => VoiceModel::NoiseBandpass { q, default_pan },
            VoiceDef::Fm { modulator_ratio, modulation_index, default_pan } => VoiceModel::Fm {
                modulator_ratio,
                modulation_index,
                default_pan,
            },
            VoiceDef::Sample { sample_id, loop_mode } => VoiceModel::Sample {
                sample_id: sample_id@,
                loop_mode,
            },
        }
    }
}

impl View for SampleRef {
    type V = SampleModel;

    open spec fn view(&self) -> SampleModel {
        SampleModel {
            path: self.path@,
            start_sample: self.start_sample,
            end_sample: self.end_sample,
            label: table::text(self.label),
        }
    }
}

impl View for Event {
    type V = EventModel;

    open spec fn view(&self) -> EventModel {
        EventModel {
            t: self.t,
            voice: self.voice@,
            freq: self.freq,
            dur: self.dur,
            amp: self.amp,
            pan: self.pan,
            envelope: self.envelope,
            fx: self.fx@,
            pitch_ratio: self.pitch_ratio,
            pitch_env: self.pitch_env,
        }
    }
}

impl View for Piece {
    type V = PieceModel;

    open spec fn view(&self) -> PieceModel {
        PieceModel {
            sample_rate: self.sample_rate,
            duration_samples: self.duration_samples,
            voices: self.voices@,
            samples: self.samples@,
            events: views(self.events@),
            metadata: self.metadata@,
        }
    }
}

impl View for ValidationError {
    type V = ValidationFault;

    open spec fn view(&self) -> ValidationFault {
        match *self {
            ValidationError::UnknownVoice { index, voice } => ValidationFault::UnknownVoice {
                index,
                voice: voice@,
            },
            ValidationError::EventPastEnd { index, end, duration } => ValidationFault::EventPastEnd {
                index,
                end,
                duration,
            },
            ValidationError::BadAmp { index, amp } => ValidationFault::BadAmp { index, amp },
            ValidationError::BadPan { index, pan } => ValidationFault::BadPan { index, pan },
            ValidationError::NotFinite { index, field } => ValidationFault::NotFinite {
                index,
                field: field@,
            },
            ValidationError::UnknownSample { voice, sample_id } => ValidationFault::UnknownSample {
                voice: voice@,
                sample_id: sample_id@,
            },
            ValidationError::BadSinePartialsLength { voice, partials, amplitudes } =>
                ValidationFault::BadSinePartialsLength {
                voice: voice@,
                partials: partials as nat,
                amplitudes: amplitudes as nat,
            },
        }
    }
}

/// What a list of events says.
pub open spec fn views(events: Seq<Event>) -> Seq<EventModel> {
    events.map_values(|e: Event| e@)
}

impl Replica for VoiceDef {
    fn replica(&self) -> (r: Self) {
        match self {
            VoiceDef::Sine { default_pan } => VoiceDef::Sine { default_pan: *default_pan },
            VoiceDef::SinePartials { partials, amplitudes, default_pan } => VoiceDef::SinePartials {
                partials: copy_list(partials),
                amplitudes: copy_list(amplitudes),
                default_pan: *default_pan,
            },
            VoiceDef::NoiseBandpass { q, default_pan } => VoiceDef::NoiseBandpass {
                q: *q,
                default_pan: *default_pan,
            },
            VoiceDef::Fm { modulator_ratio, modulation_index, default_pan } => VoiceDef::Fm {
                modulator_ratio: *modulator_ratio,
                modulation_index: *modulation_index,
                default_pan: *default_pan,
            },
            VoiceDef::Sample { sample_id, loop_mode } => VoiceDef::Sample {
                sample_id: sample_id.clone(),
                loop_mode: *loop_mode,
            },
        }
    }
}

impl Replica for SampleRef {
    fn replica(&self) -> (r: Self) {
        SampleRef {
            path: self.path.clone(),
            start_sample: self.start_sample,
            end_sample: self.end_sample,
            label: copy_text(&self.label),
        }
    }
}

impl Default for PieceMetadata {
    fn default() -> (r: Self)
        ensures
            r@ == (MetadataModel { title: None, seed: None, generator: None, constraints_ref: None }),
    {
        PieceMetadata { title: None, seed: None, generator: None, constraints_ref: None }
    }
}

/// The highest key with a finite frequency.
pub const HIGHEST_KEY: i64 = 1499;

impl Pitch {
    /// Whether the frequency is finite.
    pub open spec fn finite(self) -> bool {
        match self {
            Pitch::Hz(f) => f.finite(),
            Pitch::Key(key) => key <= HIGHEST_KEY,
        }
    }

    pub fn is_finite(self) -> (r: bool)
        ensures
            r == self.finite(),
    {
        match self {
            Pitch::Hz(f) => f.is_finite(),
            Pitch::Key(key) => key <= HIGHEST_KEY,
        }
    }
}

/// What is wrong with a voice, if anything is.
pub open spec fn voice_fault(
    name: Seq<char>,
    voice: VoiceModel,
    samples: Map<Seq<char>, SampleModel>,
) -> Option<ValidationFault> {
    match voice {
        VoiceModel::Sample { sample_id, .. } => if samples.dom().contains(sample_id) {
            None
        } else {
            Some(ValidationFault::UnknownSample { voice: name, sample_id })
        },
        VoiceModel::SinePartials { partials, amplitudes, .. } => if partials.len() == amplitudes.len() {
            None
        } else {
            Some(
                ValidationFault::BadSinePartialsLength {
                    voice: name,
                    partials: partials.len(),
                    amplitudes: amplitudes.len(),
                },
            )
        },
        _ => None,
    }
}

/// What is wrong with the event at `index`, if anything is: the first of the
/// checks that it fails.
pub open spec fn event_fault(
    index: usize,
    e: EventModel,
    voices: Map<Seq<char>, VoiceModel>,
    duration: u64,
) -> Option<ValidationFault> {
    let end = if e.t + e.dur > u64::MAX {
        u64::MAX
    } else {
        (e.t + e.dur) as u64
    };
    if !voices.dom().contains(e.voice) {
        Some(ValidationFault::UnknownVoice { index, voice: e.voice })
    } else if end > duration {
        Some(ValidationFault::EventPastEnd { index, end, duration })
    } else if !e.amp.finite() {
        Some(ValidationFault::NotFinite { index, field: "amp"@ })
    } else if e.amp.less(Single { bits: 0 }) || (Single { bits: single::ONE }).less(e.amp) {
        Some(ValidationFault::BadAmp { index, amp: e.amp })
    } else if !e.pan.finite() {
        Some(ValidationFault::NotFinite { index, field: "pan"@ })
    } else if e.pan.less(Single { bits: single::MINUS_ONE }) || (Single { bits: single::ONE }).less(
        e.pan,
    ) {
        Some(ValidationFault::BadPan { index, pan: e.pan })
    } else if e.freq is Some && !e.freq->0.finite() {
        Some(ValidationFault::NotFinite { index, field: "freq"@ })
    } else {
        None
    }
}

impl PieceModel {
    /// A voice of the piece has this fault.
    pub open spec fn has_voice_fault(self, fault: ValidationFault) -> bool {
        exists|name: Seq<char>| #[trigger]
            self.voices.dom().contains(name) && voice_fault(name, self.voices[name], self.samples)
                == Some(fault)
    }

    /// No voice of the piece has a fault.
    pub open spec fn voices_sound(self) -> bool {
        forall|name: Seq<char>| #[trigger]
            self.voices.dom().contains(name) ==> voice_fault(name, self.voices[name], self.samples) is None
    }

    /// The fault of the first faulty event from `i` on.
    pub open spec fn first_event_fault(self, i: int) -> Option<ValidationFault>
        decreases self.events.len() - i,
    {
        if i < 0 || i >= self.events.len() {
            None
        } else {
            match event_fault(i as usize, self.events[i], self.voices, self.duration_samples) {
                Some(fault) => Some(fault),
                None => self.first_event_fault(i + 1),
            }
        }
    }

    /// Whether checking the piece may end so: with the fault of any faulty
    /// voice if there is one, else with that of the first faulty event.
    pub open spec fn judged(self, fault: Option<ValidationFault>) -> bool {
        if self.voices_sound() {
            fault == self.first_event_fault(0)
        } else {
            fault is Some && self.has_voice_fault(fault->0)
        }
    }

    /// Whether the piece has no fault.
    pub open spec fn valid(self) -> bool {
        self.voices_sound() && self.first_event_fault(0) is None
    }
}

/// What the outcome of a check says.
pub open spec fn fault_of(r: Result<(), ValidationError>) -> Option<ValidationFault> {
    match r {
        Ok(_) => None,
        Err(e) => Some(e@),
    }
}

/// A piece without a fault has an event fault nowhere.
pub proof fn lemma_valid_events(p: PieceModel, from: int, i: int)
    requires
        p.first_event_fault(from) is None,
        0 <= from <= i < p.events.len(),
    ensures
        event_fault(i as usize, p.events[i], p.voices, p.duration_samples) is None,
    decreases i - from,
{
    if from < i {
        lemma_valid_events(p, from + 1, i);
    }
}

/// Every event of a valid piece plays a voice of the piece, ends within it,
/// and has an amplitude in `0..=1` and a pan in `-1..=1`.
pub proof fn law_valid_event(p: PieceModel, i: int)
    requires
        p.valid(),
        0 <= i < p.events.len() <= usize::MAX,
    ensures
        p.voices.dom().contains(p.events[i].voice),
        p.events[i].t + p.events[i].dur <= p.duration_samples || p.duration_samples == u64::MAX,
        (Single { bits: 0 }).at_most(p.events[i].amp),
        p.events[i].amp.at_most(Single { bits: single::ONE }),
        (Single { bits: single::MINUS_ONE }).at_most(p.events[i].pan),
        p.events[i].pan.at_most(Single { bits: single::ONE }),
        p.events[i].freq is Some ==> p.events[i].freq->0.finite(),
{
    lemma_valid_events(p, 0, i);
}

/// A piece is valid if and only if the sample of every voice is there and every
/// partial has an amplitude; and every event plays a voice of the piece, ends
/// within it, has an amplitude in `0..=1` and a pan in `-1..=1`, and a frequency
/// that is a number where it has one: that of a key is up to key 1499.
pub proof fn law_valid_piece(p: PieceModel)
    requires
        p.events.len() <= usize::MAX,
    ensures
        p.valid() <==> {
            &&& forall|name: Seq<char>| #[trigger]
                p.voices.dom().contains(name) ==> match p.voices[name] {
                    VoiceModel::Sample { sample_id, .. } => p.samples.dom().contains(sample_id),
                    VoiceModel::SinePartials { partials, amplitudes, .. } => partials.len() == amplitudes.len(),
                    _ => true,
                }
            &&& forall|i: int| 0 <= i < p.events.len() ==> is_sound(p, #[trigger] p.events[i])
        },
{
    lemma_no_fault(p, 0);
    assert forall|i: int| 0 <= i < p.events.len() implies (event_fault(
        i as usize,
        #[trigger] p.events[i],
        p.voices,
        p.duration_samples,
    ) is None <==> is_sound(p, p.events[i])) by {
        lemma_sound(p, i);
    }
    if p.first_event_fault(0) is None {
        assert forall|i: int| 0 <= i < p.events.len() implies is_sound(p, #[trigger] p.events[i]) by {
            lemma_valid_events(p, 0, i);
        }
    }
    if p.voices_sound() {
        assert forall|name: Seq<char>| #[trigger] p.voices.dom().contains(name) implies match p.voices[name] {
            VoiceModel::Sample { sample_id, .. } => p.samples.dom().contains(sample_id),
            VoiceModel::SinePartials { partials, amplitudes, .. } => partials.len() == amplitudes.len(),
            _ => true,
        } by {
            assert(voice_fault(name, p.voices[name], p.samples) is None);
        }
    }
}

/// Whether an event of a piece can be played.
pub open spec fn is_sound(p: PieceModel, e: EventModel) -> bool {
    let unit = closeness::whole();
    &&& p.voices.dom().contains(e.voice)
    &&& e.t + e.dur <= p.duration_samples || (e.t + e.dur > u64::MAX && p.duration_samples == u64::MAX)
    &&& e.amp.finite() && 0 <= e.amp.units() <= unit
    &&& e.pan.finite() && -unit <= e.pan.units() <= unit
    &&& e.freq is Some && e.freq->0 is Hz ==> e.freq->0->Hz_0.finite()
    &&& e.freq is Some && e.freq->0 is Key ==> e.freq->0->Key_0 <= 1499
}

proof fn lemma_sound(p: PieceModel, i: int)
    requires
        0 <= i < p.events.len(),
    ensures
        event_fault(i as usize, p.events[i], p.voices, p.duration_samples) is None <==> is_sound(p, p.events[i]),
{
    closeness::lemma_whole();
    let e: EventModel = p.events[i];
    let zero: Single = Single { bits: 0 };
    let one: Single = Single { bits: single::ONE };
    let minus: Single = Single { bits: single::MINUS_ONE };
    if e.amp.finite() {
        single::lemma_less_is_by_value(e.amp, zero);
        single::lemma_less_is_by_value(one, e.amp);
    }
    assert(zero.finite() && one.finite() && minus.finite());
    if e.pan.finite() {
        single::lemma_less_is_by_value(e.pan, minus);
        single::lemma_less_is_by_value(one, e.pan);
    }
}

proof fn lemma_no_fault(p: PieceModel, i: int)
    requires
        0 <= i <= p.events.len() <= usize::MAX,
    ensures
        (forall|k: int| i <= k < p.events.len() ==> is_sound(p, #[trigger] p.events[k])) ==> p.first_event_fault(
            i,
        ) is None,
    decreases p.events.len() - i,
{
    if i < p.events.len() {
        lemma_no_fault(p, i + 1);
        lemma_sound(p, i);
    }
}

impl Piece {
    fn check_voice(&self, i: usize) -> (r: Result<(), ValidationError>)
        requires
            i < self.voices.order().len(),
        ensures
            fault_of(r) == voice_fault(
                self.voices.order()[i as int],
                self.voices@[self.voices.order()[i as int]],
                self.samples@,
            ),
    {
        let (name, voice) = self.voices.entry(i);
        match voice {
            VoiceDef::Sample { sample_id, loop_mode: _ } => {
                if !self.samples.contains_key(sample_id.as_str()) {
                    return Err(
                        ValidationError::UnknownSample { voice: name.clone(), sample_id: sample_id.clone() },
                    );
                }
            },
            VoiceDef::SinePartials { partials, amplitudes, default_pan: _ } => {
                if partials.len() != amplitudes.len() {
                    return Err(
                        ValidationError::BadSinePartialsLength {
                            voice: name.clone(),
                            partials: partials.len(),
                            amplitudes: amplitudes.len(),
                        },
                    );
                }
            },
            _ => {},
        }
        Ok(())
    }

    fn check_event(&self, i: usize) -> (r: Result<(), ValidationError>)
        requires
            i < self.events@.len(),
        ensures
            fault_of(r) == event_fault(i, self.events@[i as int]@, self.voices@, self.duration_samples),
    {
        let e: &Event = &self.events[i];
        if !self.voices.contains_key(e.voice.as_str()) {
            return Err(ValidationError::UnknownVoice { index: i, voice: e.voice.clone() });
        }
        let end: u64 = e.t.saturating_add(e.dur);
        if end > self.duration_samples {
            return Err(
                ValidationError::EventPastEnd { index: i, end, duration: self.duration_samples },
            );
        }
        let zero: Single = Single::of_bits(0);
        let one: Single = Single::of_bits(single::ONE);
        if !e.amp.is_finite() {
            return Err(ValidationError::NotFinite { index: i, field: "amp" });
        }
        if e.amp.is_less(zero) || one.is_less(e.amp) {
            return Err(ValidationError::BadAmp { index: i, amp: e.amp });
        }
        if !e.pan.is_finite() {
            return Err(ValidationError::NotFinite { index: i, field: "pan" });
        }
        if e.pan.is_less(Single::of_bits(single::MINUS_ONE)) || one.is_less(e.pan) {
            return Err(ValidationError::BadPan { index: i, pan: e.pan });
        }
        if let Some(f) = e.freq {
            if !f.is_finite() {
                return Err(ValidationError::NotFinite { index: i, field: "freq" });
            }
        }
        Ok(())
    }

    /// Checks that the piece can be rendered.
    pub fn validate(&self) -> (r: Result<(), ValidationError>)
        ensures
            self@.judged(fault_of(r)),
            r is Ok <==> self@.valid(),
    {
        let n: usize = self.voices.len();
        let mut i: usize = 0;
        while i < n
            invariant
                i <= n,
                n == self.voices.order().len(),
                table::lists(self.voices.order(), self.voices@),
                forall|j: int|
                    0 <= j < i ==> voice_fault(
                        #[trigger] self.voices.order()[j],
                        self.voices@[self.voices.order()[j]],
                        self.samples@,
                    ) is None,
            decreases n - i,
        {
            let checked = self.check_voice(i);
            if let Err(fault) = checked {
                proof {
                    let name = self.voices.order()[i as int];
                    assert(self@.voices.dom().contains(name));
                    assert(self@.has_voice_fault(fault@));
                }
                return Err(fault);
            }
            i = i + 1;
        }
        assert(self@.voices_sound()) by {
            assert forall|name: Seq<char>| #[trigger] self@.voices.dom().contains(name) implies voice_fault(
                name,
                self@.voices[name],
                self@.samples,
            ) is None by {
                let j: int = choose|j: int| 0 <= j < n && #[trigger] self.voices.order()[j] == name;
                assert(self.voices.order()[j] == name);
            }
        }
        let mut k: usize = 0;
        while k < self.events.len()
            invariant
                k <= self.events@.len(),
                self@.voices_sound(),
                self@.first_event_fault(0) == self@.first_event_fault(k as int),
            decreases self.events.len() - k,
        {
            let checked = self.check_event(k);
            assert(self@.events[k as int] == self.events@[k as int]@);
            if let Err(fault) = checked {
                return Err(fault);
            }
            k = k + 1;
        }
        Ok(())
    }
}

} // verus!
