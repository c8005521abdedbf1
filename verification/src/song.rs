//! Songs: patterns in order, compiled into one continuous piece.
//!
//! A song runs its patterns back to back on the timeline. Each pattern keeps
//! its own tempo and grid; all share one sample rate, since the piece has a
//! single rate. Voices and samples are merged across patterns; the later
//! definition of a name wins.

use vstd::prelude::*;

use crate::compile;
use crate::pattern::{Pattern, PatternError, PatternFault, PatternModel};
use crate::piece;
use crate::piece::{
    Event, EventModel, MetadataModel, Piece, PieceMetadata, PieceModel, SampleModel, SampleRef, VoiceDef,
    VoiceModel,
};
use crate::table;
use crate::table::{copy_text, Replica, Table};

verus! {

/// An arrangement of patterns.
pub struct Song {
    pub patterns: Vec<Pattern>,
    pub metadata: SongMetadata,
}

/// Notes about a song that do not sound.
#[derive(Debug)]
pub struct SongMetadata {
    pub title: Option<String>,
    pub author: Option<String>,
}

/// What a song's metadata says.
#[verifier::ext_equal]
pub struct SongNotes {
    pub title: Option<Seq<char>>,
    pub author: Option<Seq<char>>,
}

/// What a song says.
#[verifier::ext_equal]
pub struct SongModel {
    pub patterns: Seq<PatternModel>,
    pub metadata: SongNotes,
}

impl View for SongMetadata {
    type V = SongNotes;

    open spec fn view(&self) -> SongNotes {
        SongNotes { title: table::text(self.title), author: table::text(self.author) }
    }
}

/// What a list of patterns says.
pub open spec fn pattern_views(patterns: Seq<Pattern>) -> Seq<PatternModel> {
    patterns.map_values(|p: Pattern| p@)
}

impl View for Song {
    type V = SongModel;

    open spec fn view(&self) -> SongModel {
        SongModel { patterns: pattern_views(self.patterns@), metadata: self.metadata@ }
    }
}

impl Default for SongMetadata {
    fn default() -> (r: Self)
        ensures
            r@ == (SongNotes { title: None, author: None }),
    {
        SongMetadata { title: None, author: None }
    }
}

/// What a song has become after some of its patterns.
#[verifier::ext_equal]
pub struct Assembly {
    pub rate: Option<u32>,
    pub length: int,
    pub voices: Map<Seq<char>, VoiceModel>,
    pub samples: Map<Seq<char>, SampleModel>,
    pub events: Seq<EventModel>,
}

/// Why a song does not compile: a fault, or a piece that cannot be rendered.
pub enum Stop {
    Fault(PatternFault),
    Invalid(PieceModel),
}

/// An event `offset` samples later.
pub open spec fn later(e: EventModel, offset: int) -> EventModel {
    EventModel { t: (e.t + offset) as u64, ..e }
}

impl Assembly {
    /// What it becomes with the piece of one more pattern at its end.
    pub open spec fn followed_by(self, p: PieceModel) -> Assembly {
        Assembly {
            rate: Some(p.sample_rate),
            length: self.length + p.duration_samples,
            voices: self.voices.union_prefer_right(p.voices),
            samples: self.samples.union_prefer_right(p.samples),
            events: self.events + p.events.map_values(|e: EventModel| later(e, self.length)),
        }
    }
}

impl SongModel {
    /// The first `n` patterns on one timeline.
    pub open spec fn assembled(self, n: int) -> Result<Assembly, Stop>
        decreases n,
    {
        if n <= 0 {
            Ok(
                Assembly {
                    rate: None,
                    length: 0,
                    voices: Map::empty(),
                    samples: Map::empty(),
                    events: Seq::empty(),
                },
            )
        } else {
            match self.assembled(n - 1) {
                Err(stop) => Err(stop),
                Ok(a) => match self.patterns[n - 1].draft(1) {
                    Err(fault) => Err(Stop::Fault(fault)),
                    Ok(p) => if !p.valid() {
                        Err(Stop::Invalid(p))
                    } else if a.rate is Some && a.rate->0 != p.sample_rate {
                        Err(
                            Stop::Fault(
                                PatternFault::SongSampleRateMismatch {
                                    expected: a.rate->0,
                                    found: p.sample_rate,
                                },
                            ),
                        )
                    } else if a.length + p.duration_samples > u64::MAX {
                        Err(Stop::Fault(PatternFault::GridOverflow))
                    } else {
                        Ok(a.followed_by(p))
                    },
                },
            }
        }
    }

    /// The piece of an assembly.
    pub open spec fn piece(self, a: Assembly) -> PieceModel {
        PieceModel {
            sample_rate: a.rate->0,
            duration_samples: a.length as u64,
            voices: a.voices,
            samples: a.samples,
            events: a.events,
            metadata: MetadataModel {
                title: self.metadata.title,
                seed: None,
                generator: Some("rtracker-song"@),
                constraints_ref: None,
            },
        }
    }

    /// The piece of the whole song.
    pub open spec fn draft(self) -> Result<PieceModel, Stop> {
        if self.patterns.len() == 0 {
            Err(Stop::Fault(PatternFault::EmptySong))
        } else {
            match self.assembled(self.patterns.len() as int) {
                Err(stop) => Err(stop),
                Ok(a) => Ok(self.piece(a)),
            }
        }
    }
}

/// Whether compiling may end so, given the draft.
pub open spec fn settles(draft: Result<PieceModel, Stop>, end: Result<PieceModel, PatternFault>) -> bool {
    match draft {
        Ok(p) => end == Ok::<PieceModel, PatternFault>(p),
        Err(Stop::Fault(fault)) => end == Err::<PieceModel, PatternFault>(fault),
        Err(Stop::Invalid(p)) => end is Err && end->Err_0 is Validation && p.judged(
            Some(end->Err_0->Validation_0),
        ),
    }
}

proof fn lemma_stop_stays(s: SongModel, n: int, m: int)
    requires
        0 < n <= m,
        s.assembled(n) is Err,
    ensures
        s.assembled(m) == s.assembled(n),
    decreases m - n,
{
    if n < m {
        lemma_stop_stays(s, n, m - 1);
    }
}

/// What holds of every assembly: its voices are sound, its events play its
/// voices, within its length and with sound values.
pub open spec fn sound(a: Assembly) -> bool {
    &&& 0 <= a.length <= u64::MAX
    &&& forall|name: Seq<char>| #[trigger]
        a.voices.dom().contains(name) ==> piece::voice_fault(name, a.voices[name], a.samples) is None
    &&& forall|i: int|
        0 <= i < a.events.len() ==> {
            let e = #[trigger] a.events[i];
            &&& e.t + e.dur <= a.length
            &&& piece::event_fault(0, e, a.voices, a.length as u64) is None
        }
}

proof fn lemma_assembled_sound(s: SongModel, n: int)
    requires
        0 <= n <= s.patterns.len(),
        s.assembled(n) is Ok,
    ensures
        sound(s.assembled(n)->Ok_0),
        n > 0 <==> s.assembled(n)->Ok_0.rate is Some,
    decreases n,
{
    if n > 0 {
        lemma_assembled_sound(s, n - 1);
        let a: Assembly = s.assembled(n - 1)->Ok_0;
        let q: PatternModel = s.patterns[n - 1];
        let p: PieceModel = q.draft(1)->Ok_0;
        let b: Assembly = a.followed_by(p);
        assert forall|name: Seq<char>| #[trigger] b.voices.dom().contains(name) implies piece::voice_fault(
            name,
            b.voices[name],
            b.samples,
        ) is None by {
            if p.voices.dom().contains(name) {
                assert(piece::voice_fault(name, p.voices[name], p.samples) is None);
            } else {
                assert(a.voices.dom().contains(name));
            }
        }
        assert forall|i: int| 0 <= i < b.events.len() implies {
            let e = #[trigger] b.events[i];
            &&& e.t + e.dur <= b.length
            &&& piece::event_fault(0, e, b.voices, b.length as u64) is None
        } by {
            let e: EventModel = b.events[i];
            if i < a.events.len() {
                assert(e == a.events[i]);
            } else {
                let j: int = i - a.events.len();
                compile::law_events_stay_inside(q, 1, j);
                piece::lemma_valid_events(p, 0, j);
                assert(e == later(p.events[j], a.length));
            }
        }
    }
}

/// A piece in which no event has a fault has no first one.
pub proof fn lemma_no_event_fault(p: PieceModel, i: int)
    requires
        0 <= i <= p.events.len(),
        forall|j: int|
            0 <= j < p.events.len() ==> piece::event_fault(
                0,
                #[trigger] p.events[j],
                p.voices,
                p.duration_samples,
            ) is None,
    ensures
        p.first_event_fault(i) is None,
    decreases p.events.len() - i,
{
    if i < p.events.len() {
        assert(piece::event_fault(0, p.events[i], p.voices, p.duration_samples) is None);
        lemma_no_event_fault(p, i + 1);
    }
}

/// A song of patterns that compile is valid as a whole: merging breaks no
/// pattern.
pub proof fn law_song_is_valid(s: SongModel)
    requires
        s.draft() is Ok,
    ensures
        s.draft()->Ok_0.valid(),
{
    let n: int = s.patterns.len() as int;
    lemma_assembled_sound(s, n);
    let a: Assembly = s.assembled(n)->Ok_0;
    lemma_no_event_fault(s.draft()->Ok_0, 0);
}

/// How long the first `n` patterns are together.
pub open spec fn total_length(s: SongModel, n: int) -> int
    decreases n,
{
    if n <= 0 {
        0
    } else {
        total_length(s, n - 1) + s.patterns[n - 1].draft(1)->Ok_0.duration_samples
    }
}

/// How many events the first `n` patterns have together.
pub open spec fn total_events(s: SongModel, n: int) -> int
    decreases n,
{
    if n <= 0 {
        0
    } else {
        total_events(s, n - 1) + s.patterns[n - 1].draft(1)->Ok_0.events.len()
    }
}

proof fn lemma_assembled(s: SongModel, n: int, i: int, k: int)
    requires
        0 <= i < n <= s.patterns.len(),
        s.assembled(n) is Ok,
        0 <= k < s.patterns[i].draft(1)->Ok_0.events.len(),
    ensures
        s.patterns[i].draft(1) is Ok,
        s.assembled(n)->Ok_0.length == total_length(s, n),
        s.assembled(n)->Ok_0.events.len() == total_events(s, n),
        0 <= total_events(s, i) + k < total_events(s, n),
        s.assembled(n)->Ok_0.events[total_events(s, i) + k] == later(
            s.patterns[i].draft(1)->Ok_0.events[k],
            total_length(s, i),
        ),
    decreases n,
{
    lemma_totals(s, n);
    lemma_totals(s, n - 1);
    if i < n - 1 {
        lemma_assembled(s, n - 1, i, k);
    }
}

proof fn lemma_totals(s: SongModel, n: int)
    requires
        0 <= n <= s.patterns.len(),
        s.assembled(n) is Ok,
    ensures
        s.assembled(n)->Ok_0.length == total_length(s, n),
        s.assembled(n)->Ok_0.events.len() == total_events(s, n),
        total_events(s, n) >= 0,
    decreases n,
{
    if n > 0 {
        lemma_totals(s, n - 1);
    }
}

/// Patterns concatenate on the timeline: the song is as long as its patterns
/// together, and the `k`th event of the `i`th pattern comes after the lengths
/// of the patterns before it.
pub proof fn law_patterns_concatenate(s: SongModel, i: int, k: int)
    requires
        s.draft() is Ok,
        0 <= i < s.patterns.len(),
        0 <= k < s.patterns[i].draft(1)->Ok_0.events.len(),
    ensures
        s.draft()->Ok_0.duration_samples == total_length(s, s.patterns.len() as int),
        s.draft()->Ok_0.events.len() == total_events(s, s.patterns.len() as int),
        s.draft()->Ok_0.events[total_events(s, i) + k] == later(
            s.patterns[i].draft(1)->Ok_0.events[k],
            total_length(s, i),
        ),
        s.draft()->Ok_0.events[total_events(s, i) + k].t == s.patterns[i].draft(1)->Ok_0.events[k].t
            + total_length(s, i),
{
    let n: int = s.patterns.len() as int;
    lemma_assembled(s, n, i, k);
    lemma_assembled_sound(s, n);
    compile::law_events_stay_inside(s.patterns[i], 1, k);
    lemma_lengths_grow(s, i + 1, n);
    lemma_lengths_grow(s, 0, i);
}

/// What a song takes from each of its patterns.
pub proof fn lemma_pattern_of_song(s: SongModel, i: int)
    requires
        s.draft() is Ok,
        0 <= i < s.patterns.len(),
    ensures
        s.patterns[i].draft(1) is Ok,
        s.patterns[i].draft(1)->Ok_0.valid(),
        s.patterns[i].draft(1)->Ok_0.sample_rate == s.draft()->Ok_0.sample_rate,
        s.draft()->Ok_0.duration_samples == total_length(s, s.patterns.len() as int),
        s.draft()->Ok_0.events.len() == total_events(s, s.patterns.len() as int),
        0 <= total_length(s, i) <= total_length(s, i + 1) <= total_length(s, s.patterns.len() as int) <= u64::MAX,
        0 <= total_events(s, i) <= total_events(s, i + 1) <= total_events(s, s.patterns.len() as int),
{
    let n: int = s.patterns.len() as int;
    lemma_totals(s, n);
    lemma_rates(s, n, i);
    lemma_assembled_sound(s, n);
    lemma_lengths_grow(s, 0, i);
    lemma_lengths_grow(s, i, i + 1);
    lemma_lengths_grow(s, i + 1, n);
}

proof fn lemma_rates(s: SongModel, n: int, i: int)
    requires
        0 <= i < n <= s.patterns.len(),
        s.assembled(n) is Ok,
    ensures
        s.patterns[i].draft(1) is Ok,
        s.patterns[i].draft(1)->Ok_0.valid(),
        s.assembled(n)->Ok_0.rate == Some(s.patterns[i].draft(1)->Ok_0.sample_rate),
    decreases n,
{
    if i < n - 1 {
        lemma_rates(s, n - 1, i);
    }
}

pub proof fn lemma_lengths_grow(s: SongModel, i: int, n: int)
    requires
        0 <= i <= n,
    ensures
        total_length(s, i) <= total_length(s, n),
        total_events(s, i) <= total_events(s, n),
    decreases n - i,
{
    if i < n {
        lemma_lengths_grow(s, i, n - 1);
    }
}

/// Where patterns define one voice, the last definition wins.
pub proof fn law_last_voice_wins(s: SongModel, i: int, name: Seq<char>)
    requires
        s.draft() is Ok,
        0 <= i < s.patterns.len(),
        s.patterns[i].draft(1)->Ok_0.voices.dom().contains(name),
        forall|j: int|
            i < j < s.patterns.len() ==> !(#[trigger] s.patterns[j]).draft(
                1,
            )->Ok_0.voices.dom().contains(name),
    ensures
        s.draft()->Ok_0.voices.dom().contains(name),
        s.draft()->Ok_0.voices[name] == s.patterns[i].draft(1)->Ok_0.voices[name],
{
    lemma_last_voice(s, s.patterns.len() as int, i, name);
}

proof fn lemma_last_voice(s: SongModel, n: int, i: int, name: Seq<char>)
    requires
        s.assembled(n) is Ok,
        0 <= i < n <= s.patterns.len(),
        s.patterns[i].draft(1)->Ok_0.voices.dom().contains(name),
        forall|j: int|
            i < j < n ==> !(#[trigger] s.patterns[j]).draft(1)->Ok_0.voices.dom().contains(name),
    ensures
        s.assembled(n)->Ok_0.voices.dom().contains(name),
        s.assembled(n)->Ok_0.voices[name] == s.patterns[i].draft(1)->Ok_0.voices[name],
    decreases n,
{
    if i < n - 1 {
        lemma_last_voice(s, n - 1, i, name);
        assert(!s.patterns[n - 1].draft(1)->Ok_0.voices.dom().contains(name));
    }
}

/// Where patterns define one sample, the last definition wins.
pub proof fn law_last_sample_wins(s: SongModel, i: int, name: Seq<char>)
    requires
        s.draft() is Ok,
        0 <= i < s.patterns.len(),
        s.patterns[i].draft(1)->Ok_0.samples.dom().contains(name),
        forall|j: int|
            i < j < s.patterns.len() ==> !(#[trigger] s.patterns[j]).draft(
                1,
            )->Ok_0.samples.dom().contains(name),
    ensures
        s.draft()->Ok_0.samples.dom().contains(name),
        s.draft()->Ok_0.samples[name] == s.patterns[i].draft(1)->Ok_0.samples[name],
{
    lemma_last_sample(s, s.patterns.len() as int, i, name);
}

proof fn lemma_last_sample(s: SongModel, n: int, i: int, name: Seq<char>)
    requires
        s.assembled(n) is Ok,
        0 <= i < n <= s.patterns.len(),
        s.patterns[i].draft(1)->Ok_0.samples.dom().contains(name),
        forall|j: int|
            i < j < n ==> !(#[trigger] s.patterns[j]).draft(1)->Ok_0.samples.dom().contains(name),
    ensures
        s.assembled(n)->Ok_0.samples.dom().contains(name),
        s.assembled(n)->Ok_0.samples[name] == s.patterns[i].draft(1)->Ok_0.samples[name],
    decreases n,
{
    if i < n - 1 {
        lemma_last_sample(s, n - 1, i, name);
        assert(!s.patterns[n - 1].draft(1)->Ok_0.samples.dom().contains(name));
    }
}

/// Appends events, each `offset` samples later.
fn append_later(events: &mut Vec<Event>, more: Vec<Event>, offset: u64)
    requires
        forall|i: int| 0 <= i < more@.len() ==> (#[trigger] more@[i]).t + offset <= u64::MAX,
    ensures
        piece::views(final(events)@) == piece::views(old(events)@) + piece::views(more@).map_values(
            |e: EventModel| later(e, offset as int),
        ),
{
    let ghost before = events@;
    let ghost source = more@;
    let mut rest: Vec<Event> = more;
    let mut moved: Vec<Event> = Vec::new();
    while rest.len() > 0
        invariant
            rest@.len() + moved@.len() == source.len(),
            rest@ == source.take(rest@.len() as int),
            forall|i: int| 0 <= i < source.len() ==> (#[trigger] source[i]).t + offset <= u64::MAX,
            forall|i: int|
                0 <= i < moved@.len() ==> (#[trigger] moved@[i])@ == later(
                    source[source.len() - 1 - i]@,
                    offset as int,
                ),
        decreases rest.len(),
    {
        let ghost n = rest@.len();
        if let Some(mut e) = rest.pop() {
            assert(e == source[n - 1]);
            e.t = e.t + offset;
            moved.push(e);
            assert(rest@ =~= source.take(rest@.len() as int));
        }
    }
    let ghost all = moved@;
    while moved.len() > 0
        invariant
            all.len() == source.len(),
            moved@ == all.take(moved@.len() as int),
            moved@.len() <= all.len(),
            events@.len() == before.len() + all.len() - moved@.len(),
            forall|i: int| 0 <= i < before.len() ==> #[trigger] events@[i] == before[i],
            forall|i: int|
                before.len() <= i < events@.len() ==> #[trigger] events@[i] == all[all.len() - 1 - (i
                    - before.len())],
        decreases moved.len(),
    {
        let ghost n = moved@.len();
        if let Some(e) = moved.pop() {
            assert(e == all[n - 1]);
            events.push(e);
            assert(moved@ =~= all.take(moved@.len() as int));
        }
    }
    assert(piece::views(events@) =~= piece::views(before) + piece::views(source).map_values(
        |e: EventModel| later(e, offset as int),
    ));
}

impl Song {
    /// Compiles every pattern in order and concatenates the results onto one
    /// timeline. Each pattern is compiled and checked by itself; the merged
    /// piece is checked once more at the end.
    pub fn compile(&self) -> (r: Result<Piece, PatternError>)
        ensures
            settles(self@.draft(), compile::outcome(r)),
    {
        if self.patterns.len() == 0 {
            return Err(PatternError::EmptySong);
        }
        let mut offset: u64 = 0;
        let mut events: Vec<Event> = Vec::new();
        let mut voices: Table<VoiceDef> = Table::new();
        let mut samples: Table<SampleRef> = Table::new();
        let mut rate: Option<u32> = None;
        let mut i: usize = 0;
        assert(piece::views(events@) =~= Seq::<EventModel>::empty());
        while i < self.patterns.len()
            invariant
                i <= self.patterns@.len(),
                self@.assembled(i as int) == Ok::<Assembly, Stop>(
                    Assembly {
                        rate,
                        length: offset as int,
                        voices: voices@,
                        samples: samples@,
                        events: piece::views(events@),
                    },
                ),
            decreases self.patterns.len() - i,
        {
            let ghost a = self@.assembled(i as int)->Ok_0;
            let ghost q = self@.patterns[i as int];
            assert(q == self.patterns@[i as int]@);
            let made: Piece = match self.patterns[i].compile() {
                Ok(p) => p,
                Err(e) => {
                    proof {
                        lemma_stop_stays(self@, i + 1, self.patterns@.len() as int);
                    }
                    return Err(e);
                },
            };
            if let Some(expected) = rate {
                if expected != made.sample_rate {
                    proof {
                        lemma_stop_stays(self@, i + 1, self.patterns@.len() as int);
                    }
                    return Err(
                        PatternError::SongSampleRateMismatch { expected, found: made.sample_rate },
                    );
                }
            }
            let next: u64 = match offset.checked_add(made.duration_samples) {
                Some(n) => n,
                None => {
                    proof {
                        lemma_stop_stays(self@, i + 1, self.patterns@.len() as int);
                    }
                    return Err(PatternError::GridOverflow);
                },
            };
            rate = Some(made.sample_rate);
            voices.extend(&made.voices);
            samples.extend(&made.samples);
            proof {
                assert forall|j: int| 0 <= j < made.events@.len() implies (#[trigger] made.events@[j]).t
                    + offset <= u64::MAX by {
                    compile::law_events_stay_inside(q, 1, j);
                    assert(made@.events[j] == made.events@[j]@);
                }
            }
            append_later(&mut events, made.events, offset);
            offset = next;
            proof {
                let b: Assembly = Assembly {
                    rate,
                    length: offset as int,
                    voices: voices@,
                    samples: samples@,
                    events: piece::views(events@),
                };
                assert(b =~= a.followed_by(made@));
            }
            i = i + 1;
        }
        proof {
            lemma_assembled_sound(self@, self.patterns@.len() as int);
            law_song_is_valid(self@);
        }
        let sample_rate: u32 = match rate {
            Some(r) => r,
            None => {
                return Err(PatternError::EmptySong);
            },
        };
        let whole: Piece = Piece {
            sample_rate,
            duration_samples: offset,
            voices,
            samples,
            events,
            metadata: PieceMetadata {
                title: copy_text(&self.metadata.title),
                seed: None,
                generator: Some("rtracker-song".to_owned()),
                constraints_ref: None,
            },
        };
        proof {
            let expected: PieceModel = self@.draft()->Ok_0;
            assert(whole@.metadata =~= expected.metadata);
            assert(whole@ =~= expected);
        }
        match whole.validate() {
            Ok(()) => Ok(whole),
            Err(e) => Err(PatternError::Validation(e)),
        }
    }
}

} // verus!
