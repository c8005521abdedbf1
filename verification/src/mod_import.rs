//! Minimal ProTracker MOD importer.
//!
//! A converter, not a playback engine. It reads simple 4-channel, 31-sample
//! MODs, flattens the order table into one long pattern, extracts the embedded
//! samples, and ignores effect commands.

use vstd::prelude::*;

use crate::note::{Note, NoteModel};
use crate::pattern;
use crate::pattern::{
    Cell, CellModel, Pattern, PatternMetadata, PatternModel, PatternNotes, Track, TrackModel,
};
use crate::piece::{Envelope, FxNode, SampleLoopMode, SampleModel, SampleRef, VoiceDef, VoiceModel};
use crate::single;
use crate::single::Single;
use crate::table::Table;
use crate::text;

verus! {

/// Channels of a MOD.
pub const CHANNELS: usize = 4;

/// Samples of a MOD.
pub const SAMPLE_COUNT: usize = 31;

/// Rows of a MOD pattern.
pub const ROWS_PER_PATTERN: usize = 64;

/// Bytes before the patterns.
pub const HEADER_LEN: usize = 1084;

/// Bytes of a MOD pattern.
pub const PATTERN_BYTES: usize = 1024;

/// Rate of the imported pattern and its samples.
pub const DEFAULT_SAMPLE_RATE: u32 = 48000;

/// Why a file is no MOD that can be imported.
#[derive(Debug)]
pub enum ModError {
    /// Too small for a header.
    TooSmall,
    /// A signature other than those of 4-channel MODs.
    Signature(String),
    /// No orders, or too many.
    SongLength(usize),
    /// The file ends before its patterns do.
    PatternsTruncated,
    /// The file ends inside a sample, counted from 1.
    SampleTruncated(usize),
    /// The file ends before a note of a pattern; channels count from 1.
    NoteTruncated { pattern: u8, row: usize, channel: usize },
}

/// What an import error says.
pub enum ModFault {
    TooSmall,
    Signature(Seq<char>),
    SongLength(int),
    PatternsTruncated,
    SampleTruncated(int),
    NoteTruncated { pattern: int, row: int, channel: int },
}

impl View for ModError {
    type V = ModFault;

    open spec fn view(&self) -> ModFault {
        match *self {
            ModError::TooSmall => ModFault::TooSmall,
            ModError::Signature(s) => ModFault::Signature(s@),
            ModError::SongLength(n) => ModFault::SongLength(n as int),
            ModError::PatternsTruncated => ModFault::PatternsTruncated,
            ModError::SampleTruncated(n) => ModFault::SampleTruncated(n as int),
            ModError::NoteTruncated { pattern, row, channel } => ModFault::NoteTruncated {
                pattern: pattern as int,
                row: row as int,
                channel: channel as int,
            },
        }
    }
}

impl ModFault {
    /// The error in words.
    pub open spec fn message(self) -> Seq<char> {
        match self {
            ModFault::TooSmall => "file is too small to be a 31-sample ProTracker MOD"@,
            ModFault::Signature(s) => "unsupported MOD signature '"@ + s
                + "' (expected a 4-channel ProTracker MOD)"@,
            ModFault::SongLength(n) => "invalid MOD song length "@ + text::digits(n as nat),
            ModFault::PatternsTruncated => "file ended before pattern data completed"@,
            ModFault::SampleTruncated(n) => "file ended inside sample "@ + text::digits(n as nat),
            ModFault::NoteTruncated { pattern, row, channel } => "pattern "@ + text::digits(
                pattern as nat,
            ) + " row "@ + text::digits(row as nat) + " channel "@ + text::digits(channel as nat)
                + " is truncated"@,
        }
    }
}

impl ModError {
    /// The error in words.
    pub fn message(&self) -> (r: String)
        ensures
            r@ == self@.message(),
    {
        match self {
            ModError::TooSmall => "file is too small to be a 31-sample ProTracker MOD".to_owned(),
            ModError::Signature(s) => {
                let mut out: String = "unsupported MOD signature '".to_owned();
                out.append(s.as_str());
                out.append("' (expected a 4-channel ProTracker MOD)");
                out
            },
            ModError::SongLength(n) => {
                let mut out: String = "invalid MOD song length ".to_owned();
                text::push_digits(&mut out, *n as u64);
                out
            },
            ModError::PatternsTruncated => "file ended before pattern data completed".to_owned(),
            ModError::SampleTruncated(n) => {
                let mut out: String = "file ended inside sample ".to_owned();
                text::push_digits(&mut out, *n as u64);
                out
            },
            ModError::NoteTruncated { pattern, row, channel } => {
                let mut out: String = "pattern ".to_owned();
                text::push_digits(&mut out, *pattern as u64);
                out.append(" row ");
                text::push_digits(&mut out, *row as u64);
                out.append(" channel ");
                text::push_digits(&mut out, *channel as u64);
                out.append(" is truncated");
                out
            },
        }
    }
}

/// A sample to be written out.
#[derive(Debug)]
pub struct SampleExport {
    pub id: String,
    pub name: String,
    pub file_name: String,
    pub pcm: Vec<Single>,
}

/// What a sample export says.
#[verifier::ext_equal]
pub struct ExportModel {
    pub id: Seq<char>,
    pub name: Seq<char>,
    pub file_name: Seq<char>,
    pub pcm: Seq<Single>,
}

impl View for SampleExport {
    type V = ExportModel;

    open spec fn view(&self) -> ExportModel {
        ExportModel {
            id: self.id@,
            name: self.name@,
            file_name: self.file_name@,
            pcm: self.pcm@,
        }
    }
}

/// An imported MOD.
pub struct ImportedMod {
    pub pattern: Pattern,
    pub samples: Vec<SampleExport>,
}

/// What a list of exports says.
pub open spec fn export_views(list: Seq<SampleExport>) -> Seq<ExportModel> {
    list.map_values(|e: SampleExport| e@)
}

/// The header of an embedded sample.
#[derive(Debug)]
pub struct SampleHeader {
    pub name: String,
    pub len_bytes: usize,
    pub volume: u8,
    pub repeat_start: usize,
    pub repeat_len: usize,
}

/// What a sample header says.
#[verifier::ext_equal]
pub struct HeaderModel {
    pub name: Seq<char>,
    pub len_bytes: int,
    pub volume: int,
    pub repeat_start: int,
    pub repeat_len: int,
}

impl View for SampleHeader {
    type V = HeaderModel;

    open spec fn view(&self) -> HeaderModel {
        HeaderModel {
            name: self.name@,
            len_bytes: self.len_bytes as int,
            volume: self.volume as int,
            repeat_start: self.repeat_start as int,
            repeat_len: self.repeat_len as int,
        }
    }
}

/// A note of the flattened song.
#[derive(Clone, Copy, Debug, PartialEq, Eq, Structural)]
pub struct Trigger {
    pub row: u32,
    pub channel: usize,
    pub sample_index: usize,
    pub period: u16,
}

/// The byte as text: itself where it can be shown, else a space.
pub open spec fn shown(b: u8) -> char {
    if 32 <= b <= 126 {
        b as char
    } else {
        ' '
    }
}

/// Where a field of fixed width ends: at its first zero byte.
pub open spec fn field_end(bytes: Seq<u8>, i: int) -> int
    decreases bytes.len() - i,
{
    if i < 0 || i >= bytes.len() || bytes[i] == 0 {
        i
    } else {
        field_end(bytes, i + 1)
    }
}

/// What a text field of fixed width says.
pub open spec fn ascii(bytes: Seq<u8>) -> Seq<char> {
    text::trimmed(bytes.take(field_end(bytes, 0)).map_values(|b: u8| shown(b)))
}

/// A big-endian 16-bit number.
pub open spec fn word(data: Seq<u8>, off: int) -> int {
    data[off] * 256 + data[off + 1]
}

/// The header of the `i`th sample.
pub open spec fn header(data: Seq<u8>, i: int) -> HeaderModel {
    let off = 20 + i * 30;
    HeaderModel {
        name: ascii(data.subrange(off, off + 22)),
        len_bytes: word(data, off + 22) * 2,
        volume: if data[off + 25] <= 64 { data[off + 25] as int } else { 64 },
        repeat_start: word(data, off + 26) * 2,
        repeat_len: word(data, off + 28) * 2,
    }
}

/// A name for a file: lowercase letters and digits, `_` for anything else
/// inside, nothing else at the ends.
pub open spec fn clean(c: char) -> char {
    if 'A' <= c <= 'Z' {
        (c as int + 32) as char
    } else if ('a' <= c <= 'z') || ('0' <= c <= '9') {
        c
    } else {
        '_'
    }
}

/// A text without the bars before it.
pub open spec fn bare_start(s: Seq<char>) -> Seq<char>
    decreases s.len(),
{
    if s.len() > 0 && s[0] == '_' {
        bare_start(s.skip(1))
    } else {
        s
    }
}

/// A text without the bars after it.
pub open spec fn bare_end(s: Seq<char>) -> Seq<char>
    decreases s.len(),
{
    if s.len() > 0 && s.last() == '_' {
        bare_end(s.drop_last())
    } else {
        s
    }
}

/// A name made fit for a file.
pub open spec fn sanitized(name: Seq<char>) -> Seq<char> {
    let s = bare_end(bare_start(name.map_values(|c: char| clean(c))));
    if s.len() == 0 {
        "sample"@
    } else {
        s
    }
}

/// The name of the `i`th sample's voice.
pub open spec fn id_of(i: int) -> Seq<char> {
    "sample_"@ + text::two_digits((i + 1) as nat)
}

/// The name by which the `i`th sample is shown.
pub open spec fn label_of(h: HeaderModel, i: int) -> Seq<char> {
    if h.name.len() == 0 {
        id_of(i)
    } else {
        h.name
    }
}

/// How a sample loops: as a whole, or not at all.
pub open spec fn loop_mode(h: HeaderModel) -> SampleLoopMode {
    if h.repeat_start == 0 && h.repeat_len >= 4 && h.repeat_len >= h.len_bytes {
        SampleLoopMode::Loop
    } else {
        SampleLoopMode::OneShot
    }
}

/// The value of a signed sample byte.
pub open spec fn level(b: u8) -> Single {
    Single::of_int(if b < 128 { b as int } else { b - 256 }).quotient(Single::of_int(128))
}

/// The frequency of an Amiga period at the PAL clock.
pub open spec fn hz_of(period: u16) -> Single {
    Single::of_int(7093789).quotient(
        Single::of_int(2).product(Single::of_int(if period == 0 { 1 } else { period as int })),
    )
}

/// Where a channel sits: the outer ones to the left, the inner to the right.
pub open spec fn pan_of(channel: int) -> Single {
    if channel == 0 || channel == 3 {
        Single::of_ratio(-65, 100)
    } else if channel == 1 || channel == 2 {
        Single::of_ratio(65, 100)
    } else {
        Single { bits: 0 }
    }
}

pub fn be_u16(data: &Vec<u8>, off: usize) -> (r: u16)
    requires
        off + 1 < data.len(),
    ensures
        r == word(data@, off as int),
{
    data[off] as u16 * 256 + data[off + 1] as u16
}

/// Reads a text field.
pub fn bytes_to_ascii(data: &Vec<u8>, from: usize, to: usize) -> (r: String)
    requires
        from <= to <= data@.len(),
    ensures
        r@ == ascii(data@.subrange(from as int, to as int)),
{
    let ghost bytes = data@.subrange(from as int, to as int);
    let mut shown_text: String = String::new();
    let mut i: usize = from;
    assert(bytes.take(0).map_values(|b: u8| shown(b)) =~= Seq::<char>::empty());
    while i < to && data[i] != 0
        invariant
            from <= i <= to <= data@.len(),
            bytes == data@.subrange(from as int, to as int),
            field_end(bytes, 0) == field_end(bytes, i - from),
            shown_text@ == bytes.take(i - from).map_values(|b: u8| shown(b)),
        decreases to - i,
    {
        let b: u8 = data[i];
        assert(bytes[i - from] == b);
        let c: char = if b >= 32 && b <= 126 {
            b as char
        } else {
            ' '
        };
        shown_text.push(c);
        i = i + 1;
        assert(bytes.take(i - from) =~= bytes.take(i - 1 - from).push(b));
        assert(bytes.take(i - from).map_values(|b: u8| shown(b)) =~= bytes.take(
            i - 1 - from,
        ).map_values(|b: u8| shown(b)).push(shown(b)));
    }
    assert(i < to ==> bytes[i - from] == data@[i as int]);
    assert(field_end(bytes, 0) == i - from);
    let chars: Vec<char> = text::trim(shown_text.as_str());
    let r: String = text::text_of(&chars, 0, chars.len());
    assert(chars@.subrange(0, chars@.len() as int) =~= chars@);
    r
}

/// A name made fit for a file.
pub fn sanitize_name(name: &str) -> (r: String)
    ensures
        r@ == sanitized(name@),
{
    let all: Vec<char> = text::chars_of(name);
    let mut cleaned: Vec<char> = Vec::new();
    let mut i: usize = 0;
    while i < all.len()
        invariant
            all@ == name@,
            i <= all@.len(),
            cleaned@ == name@.take(i as int).map_values(|c: char| clean(c)),
        decreases all.len() - i,
    {
        let c: char = all[i];
        let d: char = if c >= 'A' && c <= 'Z' {
            (c as u8 + 32) as char
        } else if (c >= 'a' && c <= 'z') || (c >= '0' && c <= '9') {
            c
        } else {
            '_'
        };
        cleaned.push(d);
        i = i + 1;
        assert(name@.take(i as int) =~= name@.take(i - 1).push(c));
        assert(cleaned@ =~= name@.take(i as int).map_values(|c: char| clean(c)));
    }
    assert(name@.take(i as int) =~= name@);
    let ghost s = cleaned@;
    let mut from: usize = 0;
    assert(s.skip(0) =~= s);
    while from < cleaned.len() && cleaned[from] == '_'
        invariant
            cleaned@ == s,
            from <= s.len(),
            bare_start(s) == bare_start(s.skip(from as int)),
        decreases cleaned.len() - from,
    {
        from = from + 1;
        assert(s.skip(from - 1).skip(1) =~= s.skip(from as int));
    }
    assert(bare_start(s) == s.skip(from as int));
    let mut to: usize = cleaned.len();
    assert(s.subrange(from as int, to as int) =~= s.skip(from as int));
    while to > from && cleaned[to - 1] == '_'
        invariant
            cleaned@ == s,
            from <= to <= s.len(),
            bare_end(bare_start(s)) == bare_end(s.subrange(from as int, to as int)),
        decreases to,
    {
        to = to - 1;
        assert(s.subrange(from as int, to + 1).drop_last() =~= s.subrange(from as int, to as int));
    }
    if from == to {
        "sample".to_owned()
    } else {
        text::text_of(&cleaned, from, to)
    }
}

/// The name of a sample's voice.
pub fn sample_id(index: usize) -> (r: String)
    requires
        index < usize::MAX,
    ensures
        r@ == id_of(index as int),
{
    let mut out: String = "sample_".to_owned();
    text::push_two_digits(&mut out, index as u64 + 1);
    out
}

pub fn loop_mode_for(header: &SampleHeader) -> (r: SampleLoopMode)
    ensures
        r == loop_mode(header@),
{
    if header.repeat_start == 0 && header.repeat_len >= 4 && header.repeat_len >= header.len_bytes {
        SampleLoopMode::Loop
    } else {
        SampleLoopMode::OneShot
    }
}

pub fn period_to_hz(period: u16) -> (r: Single)
    ensures
        r == hz_of(period),
{
    let p: i64 = if period == 0 { 1 } else { period as i64 };
    Single::from_int(7093789).over(Single::from_int(2).times(Single::from_int(p)))
}

pub fn channel_pan(channel: usize) -> (r: Single)
    ensures
        r == pan_of(channel as int),
{
    if channel == 0 || channel == 3 {
        Single::ratio(-65, 100)
    } else if channel == 1 || channel == 2 {
        Single::ratio(65, 100)
    } else {
        Single::of_bits(0)
    }
}

/// Reads the header of the `i`th sample.
fn read_header(data: &Vec<u8>, i: usize) -> (r: SampleHeader)
    requires
        i < SAMPLE_COUNT,
        data@.len() >= HEADER_LEN,
    ensures
        r@ == header(data@, i as int),
        r.len_bytes <= 131070,
{
    let off: usize = 20 + i * 30;
    let volume: u8 = if data[off + 25] <= 64 { data[off + 25] } else { 64 };
    SampleHeader {
        name: bytes_to_ascii(data, off, off + 22),
        len_bytes: be_u16(data, off + 22) as usize * 2,
        volume,
        repeat_start: be_u16(data, off + 26) as usize * 2,
        repeat_len: be_u16(data, off + 28) as usize * 2,
    }
}

/// Whether triggers come in the order of their rows, on channels of a MOD.
pub open spec fn in_order(triggers: Seq<Trigger>) -> bool {
    &&& forall|i: int, j: int|
        0 <= i <= j < triggers.len() ==> (#[trigger] triggers[i]).row <= (#[trigger] triggers[j]).row
    &&& forall|i: int| 0 <= i < triggers.len() ==> (#[trigger] triggers[i]).channel < CHANNELS
}

/// The first trigger from `j` on that sounds on a channel.
pub open spec fn next_on(triggers: Seq<Trigger>, channel: usize, j: int) -> int
    decreases triggers.len() - j,
{
    if j < 0 || j >= triggers.len() {
        triggers.len() as int
    } else if triggers[j].channel == channel {
        j
    } else {
        next_on(triggers, channel, j + 1)
    }
}

/// Whether a trigger comes after another on its channel: in a later row, or
/// in the same row and later in the list.
pub open spec fn comes_after(triggers: Seq<Trigger>, i: int, j: int) -> bool {
    &&& triggers[j].channel == triggers[i].channel
    &&& triggers[i].row < triggers[j].row || (triggers[i].row == triggers[j].row && i < j)
}

/// Of the first `n` triggers, the one that follows the `i`th on its channel:
/// the earliest of those that come after it.
pub open spec fn follower(triggers: Seq<Trigger>, i: int, n: int) -> Option<int>
    decreases n,
{
    if n <= 0 {
        None
    } else {
        let before = follower(triggers, i, n - 1);
        if comes_after(triggers, i, n - 1) && (before is None || triggers[n - 1].row
            < triggers[before->0].row) {
            Some(n - 1)
        } else {
            before
        }
    }
}

/// How many rows a trigger sounds: to the one that follows it on its channel,
/// or to the end, but at least one. On a channel that a MOD does not have it
/// sounds one row.
pub open spec fn rows_of(triggers: Seq<Trigger>, total_rows: u32, i: int) -> int {
    let end = match follower(triggers, i, triggers.len() as int) {
        Some(j) => triggers[j].row,
        None => total_rows,
    };
    if triggers[i].channel < CHANNELS && end - triggers[i].row > 1 {
        end - triggers[i].row
    } else {
        1
    }
}

proof fn lemma_follower(triggers: Seq<Trigger>, i: int, n: int)
    requires
        0 <= n <= triggers.len(),
    ensures
        match follower(triggers, i, n) {
            Some(j) => 0 <= j < n && comes_after(triggers, i, j) && forall|k: int|
                0 <= k < n && #[trigger] comes_after(triggers, i, k) ==> triggers[j].row < triggers[k].row || (
                triggers[j].row == triggers[k].row && j <= k),
            None => forall|k: int| 0 <= k < n ==> !#[trigger] comes_after(triggers, i, k),
        },
    decreases n,
{
    if n > 0 {
        lemma_follower(triggers, i, n - 1);
    }
}

/// Where the triggers are in order, the one that follows is the next one on
/// the channel.
proof fn lemma_follower_in_order(triggers: Seq<Trigger>, i: int)
    requires
        in_order(triggers),
        0 <= i < triggers.len(),
    ensures
        ({
            let next = next_on(triggers, triggers[i].channel, i + 1);
            follower(triggers, i, triggers.len() as int) == if next < triggers.len() {
                Some(next)
            } else {
                None
            }
        }),
{
    let count: int = triggers.len() as int;
    let channel: usize = triggers[i].channel;
    let next: int = next_on(triggers, channel, i + 1);
    lemma_follower(triggers, i, count);
    lemma_next_is_next(triggers, channel, i + 1);
    let f: Option<int> = follower(triggers, i, count);
    if next < count {
        assert(comes_after(triggers, i, next));
        let j: int = f->0;
        assert(comes_after(triggers, i, j));
        if j < i {
            assert(triggers[j].row <= triggers[i].row);
        } else if j < next {
            assert(triggers[j].channel != channel);
        } else {
            assert(triggers[next].row <= triggers[j].row);
        }
    } else if f is Some {
        let j: int = f->0;
        assert(comes_after(triggers, i, j));
        if j < i {
            assert(triggers[j].row <= triggers[i].row);
        } else {
            assert(triggers[j].channel != channel);
        }
    }
}

proof fn lemma_next_is_next(triggers: Seq<Trigger>, channel: usize, j: int)
    requires
        0 <= j <= triggers.len(),
    ensures
        j <= next_on(triggers, channel, j) <= triggers.len(),
        next_on(triggers, channel, j) < triggers.len() ==> triggers[next_on(triggers, channel, j)].channel
            == channel,
        forall|k: int|
            j <= k < next_on(triggers, channel, j) ==> (#[trigger] triggers[k]).channel != channel,
    decreases triggers.len() - j,
{
    if j < triggers.len() && triggers[j].channel != channel {
        lemma_next_is_next(triggers, channel, j + 1);
    }
}

/// Where the `n`th note of the flattened song is stored.
pub open spec fn slot(start: int, orders: Seq<u8>, n: int) -> int {
    start + orders[n / 256] * PATTERN_BYTES + (n % 256) * 4
}

/// The first note from `n` on that the file ends before.
pub open spec fn cut_note(len: int, start: int, orders: Seq<u8>, n: int) -> Option<int>
    decreases orders.len() * 256 - n,
{
    if n < 0 || n >= orders.len() * 256 {
        None
    } else if slot(start, orders, n) + 4 > len {
        Some(n)
    } else {
        cut_note(len, start, orders, n + 1)
    }
}

/// What is known after some notes: the sample that each channel last named,
/// and the triggers.
#[verifier::ext_equal]
pub struct Scan {
    pub active: Seq<Option<usize>>,
    pub triggers: Seq<Trigger>,
}

impl Scan {
    /// What is known after one more note. A sample number that names a sample
    /// with data makes it the channel's; a period triggers it.
    pub open spec fn after(self, n: int, b0: u8, b1: u8, b2: u8, has_data: spec_fn(int) -> bool) -> Scan {
        let channel = n % 4;
        let period = (b0 % 16) * 256 + b1;
        let number = (b0 / 16) * 16 + b2 / 16;
        let active = if 1 <= number <= SAMPLE_COUNT && has_data(number - 1) {
            self.active.update(channel, Some((number - 1) as usize))
        } else {
            self.active
        };
        Scan {
            active,
            triggers: if period > 0 && active[channel] is Some {
                self.triggers.push(
                    Trigger {
                        row: (n / 4) as u32,
                        channel: channel as usize,
                        sample_index: active[channel]->0,
                        period: period as u16,
                    },
                )
            } else {
                self.triggers
            },
        }
    }
}

/// Whether a sample has data, by its header.
pub open spec fn sounding(headers: Seq<HeaderModel>) -> spec_fn(int) -> bool {
    |i: int| headers[i].len_bytes > 0
}

/// The headers of the samples of a MOD.
pub open spec fn headers_of(data: Seq<u8>) -> Seq<HeaderModel> {
    Seq::new(SAMPLE_COUNT as nat, |i: int| header(data, i))
}

pub open spec fn header_views(list: Seq<SampleHeader>) -> Seq<HeaderModel> {
    Seq::new(list.len(), |i: int| list[i]@)
}

/// What is known after the first `n` notes of the flattened song: the
/// patterns from `start` on, in the order that is given.
pub open spec fn scanned(
    data: Seq<u8>,
    start: int,
    orders: Seq<u8>,
    headers: Seq<HeaderModel>,
    n: int,
) -> Scan
    decreases n,
{
    if n <= 0 {
        Scan { active: seq![None, None, None, None], triggers: Seq::empty() }
    } else {
        let off = slot(start, orders, n - 1);
        scanned(data, start, orders, headers, n - 1).after(
            n - 1,
            data[off],
            data[off + 1],
            data[off + 2],
            sounding(headers),
        )
    }
}

proof fn lemma_scanned(data: Seq<u8>, start: int, orders: Seq<u8>, headers: Seq<HeaderModel>, n: int)
    requires
        0 <= n <= 0x4_0000_0000,
    ensures
        ({
            let found = scanned(data, start, orders, headers, n);
            &&& found.active.len() == CHANNELS
            &&& forall|c: int|
                0 <= c < CHANNELS ==> match #[trigger] found.active[c] {
                    Some(i) => i < SAMPLE_COUNT && headers[i as int].len_bytes > 0,
                    None => true,
                }
            &&& forall|i: int|
                0 <= i < found.triggers.len() ==> {
                    &&& (#[trigger] found.triggers[i]).row * 4 < n
                    &&& found.triggers[i].sample_index < SAMPLE_COUNT
                    &&& headers[found.triggers[i].sample_index as int].len_bytes > 0
                }
        }),
    decreases n,
{
    if n > 0 {
        lemma_scanned(data, start, orders, headers, n - 1);
        let m: int = n - 1;
        assert(0 <= m % 4 < 4);
        assert((m / 4) * 4 <= m) by (nonlinear_arith)
            requires
                m >= 0,
        ;
    }
}

proof fn lemma_cut_note(len: int, start: int, orders: Seq<u8>, n: int)
    requires
        0 <= n,
        forall|o: int|
            0 <= o < orders.len() ==> start + ((#[trigger] orders[o]) + 1) * PATTERN_BYTES <= len,
    ensures
        cut_note(len, start, orders, n) is None,
    decreases orders.len() * 256 - n,
{
    if n < orders.len() * 256 {
        let o: int = n / 256;
        assert(orders[o] * PATTERN_BYTES + (n % 256) * 4 + 4 <= (orders[o] + 1) * PATTERN_BYTES)
            by (nonlinear_arith)
            requires
                PATTERN_BYTES == 1024,
                n % 256 < 256,
        ;
        lemma_cut_note(len, start, orders, n + 1);
    }
}

/// Collects the triggers of the flattened song: the patterns that follow
/// `pattern_start`, in the order of `orders`. A file that ends before one of
/// their notes is refused.
pub fn collect_triggers(
    data: &Vec<u8>,
    pattern_start: usize,
    orders: &Vec<u8>,
    headers: &Vec<SampleHeader>,
) -> (r: Result<Vec<Trigger>, ModError>)
    requires
        pattern_start + 0x4_0004 <= usize::MAX,
        orders@.len() <= 0x3ff_ffff,
        headers@.len() >= SAMPLE_COUNT,
    ensures
        match (r, cut_note(data@.len() as int, pattern_start as int, orders@, 0)) {
            (Ok(triggers), None) => triggers@ == scanned(
                data@,
                pattern_start as int,
                orders@,
                header_views(headers@),
                orders@.len() as int * 256,
            ).triggers,
            (Err(e), Some(n)) => e@ == (ModFault::NoteTruncated {
                pattern: orders@[n / 256] as int,
                row: n % 256 / 4,
                channel: n % 4 + 1,
            }),
            _ => false,
        },
{
    let ghost start = pattern_start as int;
    let ghost len = data@.len() as int;
    let ghost views = header_views(headers@);
    let mut active: Vec<Option<usize>> = vec![None, None, None, None];
    let mut triggers: Vec<Trigger> = Vec::new();
    let total: u64 = orders.len() as u64 * 256;
    let mut n: u64 = 0;
    assert(active@ =~= scanned(data@, start, orders@, views, 0).active);
    while n < total
        invariant
            orders@.len() <= 0x3ff_ffff,
            total == orders@.len() * 256,
            n <= total,
            pattern_start + 0x4_0004 <= usize::MAX,
            start == pattern_start,
            len == data@.len(),
            headers@.len() >= SAMPLE_COUNT,
            views == header_views(headers@),
            active@.len() == CHANNELS,
            cut_note(len, start, orders@, 0) == cut_note(len, start, orders@, n as int),
            scanned(data@, start, orders@, views, n as int) == (Scan { active: active@, triggers: triggers@ }),
        decreases total - n,
    {
        let order: usize = (n / 256) as usize;
        let at: usize = (n % 256) as usize;
        let pattern: u8 = orders[order];
        let off: usize = pattern_start + pattern as usize * PATTERN_BYTES + at * 4;
        assert(off == slot(start, orders@, n as int));
        if off + 4 > data.len() {
            return Err(ModError::NoteTruncated { pattern, row: at / 4, channel: at % 4 + 1 });
        }
        let b0: u8 = data[off];
        let b1: u8 = data[off + 1];
        let b2: u8 = data[off + 2];
        let period: u16 = (b0 % 16) as u16 * 256 + b1 as u16;
        let number: usize = (b0 / 16) as usize * 16 + (b2 / 16) as usize;
        let channel: usize = at % 4;
        assert(channel == n % 4);
        if 1 <= number && number <= SAMPLE_COUNT {
            assert(sounding(views)(number - 1) == (headers@[number - 1].len_bytes > 0));
            if headers[number - 1].len_bytes > 0 {
                active.set(channel, Some(number - 1));
            }
        }
        if period > 0 {
            if let Some(sample_index) = active[channel] {
                triggers.push(Trigger { row: (n / 4) as u32, channel, sample_index, period });
            }
        }
        n = n + 1;
        assert(scanned(data@, start, orders@, views, n as int) =~= (Scan {
            active: active@,
            triggers: triggers@,
        }));
    }
    Ok(triggers)
}

fn are_in_order(triggers: &Vec<Trigger>) -> (r: bool)
    ensures
        r == in_order(triggers@),
{
    let mut last: u32 = 0;
    let mut i: usize = 0;
    while i < triggers.len()
        invariant
            i <= triggers@.len(),
            i > 0 ==> last == triggers@[i - 1].row,
            i == 0 ==> last == 0,
            in_order(triggers@.take(i as int)),
        decreases triggers.len() - i,
    {
        let ghost before = triggers@.take(i as int);
        let ghost now = triggers@.take(i + 1);
        if triggers[i].row < last || triggers[i].channel >= CHANNELS {
            assert(triggers@[i as int].row < last ==> i > 0);
            return false;
        }
        proof {
            assert(forall|k: int| 0 <= k < i ==> #[trigger] now[k] == before[k]);
            assert forall|a: int, b: int| 0 <= a <= b < now.len() implies (#[trigger] now[a]).row
                <= (#[trigger] now[b]).row by {
                if b < i {
                    assert(before[a].row <= before[b].row);
                } else if a < i {
                    assert(before[a].row <= before[i - 1].row);
                }
            }
            assert forall|a: int| 0 <= a < now.len() implies (#[trigger] now[a]).channel < CHANNELS by {
                if a < i {
                    assert(before[a].channel < CHANNELS);
                }
            }
        }
        last = triggers[i].row;
        i = i + 1;
    }
    assert(triggers@.take(i as int) =~= triggers@);
    true
}

/// How many rows each trigger sounds, where they are in order: one walk from
/// the end.
fn durations_in_order(triggers: &Vec<Trigger>, total_rows: u32) -> (r: Vec<u32>)
    requires
        in_order(triggers@),
    ensures
        r@.len() == triggers@.len(),
        forall|i: int| 0 <= i < r@.len() ==> #[trigger] r@[i] == rows_of(triggers@, total_rows, i),
{
    let count: usize = triggers.len();
    let mut durations: Vec<u32> = vec![1; count];
    let mut next: Vec<usize> = vec![count, count, count, count];
    let mut i: usize = count;
    while i > 0
        invariant
            i <= count,
            count == triggers@.len(),
            in_order(triggers@),
            durations@.len() == count,
            next@.len() == CHANNELS,
            forall|c: int|
                0 <= c < CHANNELS ==> #[trigger] next@[c] == next_on(triggers@, c as usize, i as int),
            forall|k: int|
                i <= k < count ==> #[trigger] durations@[k] == rows_of(triggers@, total_rows, k),
        decreases i,
    {
        i = i - 1;
        let channel: usize = triggers[i].channel;
        let row: u32 = triggers[i].row;
        let after: usize = next[channel];
        assert(after == next_on(triggers@, channel, i + 1));
        proof {
            lemma_follower_in_order(triggers@, i as int);
        }
        let end: u32 = if after < count {
            triggers[after].row
        } else {
            total_rows
        };
        let d: u32 = if end > row && end - row > 1 {
            end - row
        } else {
            1
        };
        durations.set(i, d);
        next.set(channel, i);
    }
    durations
}

fn find_follower(triggers: &Vec<Trigger>, i: usize) -> (r: Option<usize>)
    requires
        i < triggers@.len(),
    ensures
        follower(triggers@, i as int, triggers@.len() as int) == match r {
            Some(j) => Some(j as int),
            None => None,
        },
        r is Some ==> r->0 < triggers@.len(),
{
    let mut found: Option<usize> = None;
    let mut n: usize = 0;
    while n < triggers.len()
        invariant
            i < triggers@.len(),
            n <= triggers@.len(),
            follower(triggers@, i as int, n as int) == match found {
                Some(j) => Some(j as int),
                None => None,
            },
            found is Some ==> found->0 < n,
        decreases triggers.len() - n,
    {
        let t: Trigger = triggers[n];
        let row: u32 = triggers[i].row;
        let after: bool = t.channel == triggers[i].channel && (row < t.row || (row == t.row && i < n));
        let earlier: bool = match found {
            Some(j) => t.row < triggers[j].row,
            None => true,
        };
        if after && earlier {
            found = Some(n);
        }
        n = n + 1;
    }
    found
}

/// How many rows each trigger sounds, in whatever order they come.
pub fn trigger_durations(triggers: &Vec<Trigger>, total_rows: u32) -> (r: Vec<u32>)
    ensures
        r@.len() == triggers@.len(),
        forall|i: int| 0 <= i < r@.len() ==> #[trigger] r@[i] == rows_of(triggers@, total_rows, i),
{
    if are_in_order(triggers) {
        return durations_in_order(triggers, total_rows);
    }
    let mut durations: Vec<u32> = Vec::new();
    let mut i: usize = 0;
    while i < triggers.len()
        invariant
            i <= triggers@.len(),
            durations@.len() == i,
            forall|k: int|
                0 <= k < i ==> #[trigger] durations@[k] == rows_of(triggers@, total_rows, k),
        decreases triggers.len() - i,
    {
        let row: u32 = triggers[i].row;
        let end: u32 = match find_follower(triggers, i) {
            Some(j) => triggers[j].row,
            None => total_rows,
        };
        let d: u32 = if triggers[i].channel < CHANNELS && end > row && end - row > 1 {
            end - row
        } else {
            1
        };
        durations.push(d);
        i = i + 1;
    }
    durations
}

/// The highest pattern that the first `n` orders play.
pub open spec fn highest(orders: Seq<u8>, n: int) -> int
    decreases n,
{
    if n <= 0 {
        0
    } else if orders[n - 1] > highest(orders, n - 1) {
        orders[n - 1] as int
    } else {
        highest(orders, n - 1)
    }
}

/// The voices, exports and data of some samples.
#[verifier::ext_equal]
pub struct Extract {
    pub voices: Map<Seq<char>, VoiceModel>,
    pub exports: Seq<ExportModel>,
    pub end: int,
}

/// What the first `n` samples hold, with the data of the first at `start`.
pub open spec fn extracted(data: Seq<u8>, start: int, n: int) -> Result<Extract, ModFault>
    decreases n,
{
    if n <= 0 {
        Ok(Extract { voices: Map::empty(), exports: Seq::empty(), end: start })
    } else {
        match extracted(data, start, n - 1) {
            Err(fault) => Err(fault),
            Ok(before) => {
                let h = header(data, n - 1);
                let end = before.end + h.len_bytes;
                if h.len_bytes == 0 {
                    Ok(before)
                } else if data.len() < end {
                    Err(ModFault::SampleTruncated(n))
                } else {
                    Ok(
                        Extract {
                            voices: before.voices.insert(
                                id_of(n - 1),
                                VoiceModel::Sample { sample_id: id_of(n - 1), loop_mode: loop_mode(h) },
                            ),
                            exports: before.exports.push(
                                ExportModel {
                                    id: id_of(n - 1),
                                    name: label_of(h, n - 1),
                                    file_name: id_of(n - 1) + "_"@ + sanitized(label_of(h, n - 1))
                                        + ".wav"@,
                                    pcm: data.subrange(before.end, end).map_values(|b: u8| level(b)),
                                },
                            ),
                            end,
                        },
                    )
                }
            },
        }
    }
}

/// The cell of a trigger that sounds `rows` rows.
pub open spec fn cell_of(trigger: Trigger, rows: int) -> CellModel {
    let hz = hz_of(trigger.period);
    CellModel {
        row: trigger.row,
        note: NoteModel::Hz(hz),
        pitch_ratio: Some(
            hz.quotient(Single::of_int(DEFAULT_SAMPLE_RATE as int)).larger(Single::of_ratio(1, 1000)),
        ),
        velocity: None,
        duration_rows: Some(Single::of_int(rows)),
        pan: None,
        fx: Seq::empty(),
        pitch_env: None,
    }
}

/// The cells of the first `n` triggers that play a sample on a channel.
pub open spec fn cells_of(triggers: Seq<Trigger>, total_rows: u32, channel: int, sample: int, n: int) -> Seq<
    CellModel,
>
    decreases n,
{
    if n <= 0 {
        Seq::empty()
    } else {
        let before = cells_of(triggers, total_rows, channel, sample, n - 1);
        let t = triggers[n - 1];
        if t.channel == channel && t.sample_index == sample {
            before.push(cell_of(t, rows_of(triggers, total_rows, n - 1)))
        } else {
            before
        }
    }
}

/// The track of a sample on a channel.
pub open spec fn track_of(data: Seq<u8>, channel: int, sample: int, cells: Seq<CellModel>) -> TrackModel {
    let h = header(data, sample);
    TrackModel {
        name: "ch"@ + text::digits((channel + 1) as nat) + " "@ + label_of(h, sample),
        instrument: None,
        voice: Some(id_of(sample)),
        default_amp: Some(
            Single::of_int(h.volume).quotient(Single::of_int(64)).clamped(
                Single { bits: 0 },
                Single { bits: single::ONE },
            ),
        ),
        default_pan: Some(pan_of(channel)),
        default_envelope: Some(Envelope::Gate),
        default_fx: Some(Seq::empty()),
        default_duration_rows: Some(Single { bits: single::ONE }),
        default_pitch_env: None,
        cells,
    }
}

/// The tracks of the first `n` pairs of a channel and a sample, channel by
/// channel: those that play something.
pub open spec fn tracks_of(data: Seq<u8>, triggers: Seq<Trigger>, total_rows: u32, n: int) -> Seq<TrackModel>
    decreases n,
{
    if n <= 0 {
        Seq::empty()
    } else {
        let before = tracks_of(data, triggers, total_rows, n - 1);
        let channel = (n - 1) / 31;
        let sample = (n - 1) % 31;
        let cells = cells_of(triggers, total_rows, channel, sample, triggers.len() as int);
        if cells.len() > 0 {
            before.push(track_of(data, channel, sample, cells))
        } else {
            before
        }
    }
}

/// What a MOD becomes, or why it is refused.
pub open spec fn imported(data: Seq<u8>) -> Result<(PatternModel, Seq<ExportModel>), ModFault> {
    let signature = ascii(data.subrange(1080, 1084));
    let song_len = data[950] as int;
    let orders = data.subrange(952, 952 + song_len);
    let start = HEADER_LEN + (highest(orders, song_len) + 1) * PATTERN_BYTES;
    let title = ascii(data.subrange(0, 20));
    let triggers = scanned(data, HEADER_LEN as int, orders, headers_of(data), song_len * 256).triggers;
    let rows = (song_len * ROWS_PER_PATTERN) as u32;
    if data.len() < HEADER_LEN {
        Err(ModFault::TooSmall)
    } else if signature != "M.K."@ && signature != "M!K!"@ && signature != "FLT4"@ && signature != "4CHN"@ {
        Err(ModFault::Signature(signature))
    } else if song_len == 0 || song_len > 128 {
        Err(ModFault::SongLength(song_len))
    } else if data.len() < start {
        Err(ModFault::PatternsTruncated)
    } else {
        match extracted(data, start, SAMPLE_COUNT as int) {
            Err(fault) => Err(fault),
            Ok(extract) => Ok(
                (
                    PatternModel {
                        sample_rate: DEFAULT_SAMPLE_RATE,
                        tempo_bpm: Single::of_int(125),
                        lines_per_beat: 4,
                        rows,
                        voices: extract.voices,
                        samples: Map::empty(),
                        tracks: tracks_of(data, triggers, rows, 124),
                        metadata: PatternNotes {
                            title: if title.len() == 0 {
                                None
                            } else {
                                Some(title)
                            },
                            author: Some("imported from ProTracker MOD"@),
                        },
                    },
                    extract.exports,
                ),
            ),
        }
    }
}

/// What the outcome of an import says.
pub open spec fn outcome(r: Result<ImportedMod, ModError>) -> Result<
    (PatternModel, Seq<ExportModel>),
    ModFault,
> {
    match r {
        Ok(m) => Ok((m.pattern@, export_views(m.samples@))),
        Err(e) => Err(e@),
    }
}

fn pcm_of(data: &Vec<u8>, from: usize, to: usize) -> (r: Vec<Single>)
    requires
        from <= to <= data@.len(),
    ensures
        r@ == data@.subrange(from as int, to as int).map_values(|b: u8| level(b)),
{
    let mut out: Vec<Single> = Vec::new();
    let mut i: usize = from;
    while i < to
        invariant
            from <= i <= to <= data@.len(),
            out@ == data@.subrange(from as int, i as int).map_values(|b: u8| level(b)),
        decreases to - i,
    {
        let b: u8 = data[i];
        let n: i64 = if b < 128 {
            b as i64
        } else {
            b as i64 - 256
        };
        out.push(Single::from_int(n).over(Single::from_int(128)));
        i = i + 1;
        assert(data@.subrange(from as int, i as int) =~= data@.subrange(from as int, i - 1).push(b));
        assert(out@ =~= data@.subrange(from as int, i as int).map_values(|b: u8| level(b)));
    }
    out
}

fn label(h: &SampleHeader, i: usize) -> (r: String)
    requires
        i < SAMPLE_COUNT,
    ensures
        r@ == label_of(h@, i as int),
{
    if h.name.as_str().unicode_len() == 0 {
        sample_id(i)
    } else {
        h.name.clone()
    }
}

proof fn lemma_extract_fault(data: Seq<u8>, start: int, n: int, m: int)
    requires
        0 < n <= m,
        extracted(data, start, n) is Err,
    ensures
        extracted(data, start, m) == extracted(data, start, n),
    decreases m - n,
{
    if n < m {
        lemma_extract_fault(data, start, n, m - 1);
    }
}

/// Extracts the samples.
fn extract_samples(data: &Vec<u8>, start: usize, headers: &Vec<SampleHeader>) -> (r: Result<
    (Table<VoiceDef>, Vec<SampleExport>),
    ModError,
>)
    requires
        start <= data@.len(),
        headers@.len() == SAMPLE_COUNT,
        forall|i: int|
            0 <= i < SAMPLE_COUNT ==> (#[trigger] headers@[i])@ == header(data@, i)
                && headers@[i].len_bytes <= 131070,
    ensures
        match (r, extracted(data@, start as int, SAMPLE_COUNT as int)) {
            (Ok((voices, exports)), Ok(e)) => voices@ == e.voices && export_views(exports@) == e.exports,
            (Err(e), Err(f)) => e@ == f,
            _ => false,
        },
{
    let mut voices: Table<VoiceDef> = Table::new();
    let mut exports: Vec<SampleExport> = Vec::new();
    let mut pos: usize = start;
    let mut i: usize = 0;
    assert(export_views(exports@) =~= Seq::<ExportModel>::empty());
    while i < SAMPLE_COUNT
        invariant
            i <= SAMPLE_COUNT,
            headers@.len() == SAMPLE_COUNT,
            forall|k: int|
                0 <= k < SAMPLE_COUNT ==> (#[trigger] headers@[k])@ == header(data@, k)
                    && headers@[k].len_bytes <= 131070,
            start <= pos <= data@.len(),
            extracted(data@, start as int, i as int) == Ok::<Extract, ModFault>(
                Extract { voices: voices@, exports: export_views(exports@), end: pos as int },
            ),
        decreases SAMPLE_COUNT - i,
    {
        let ghost before = extracted(data@, start as int, i as int)->Ok_0;
        let h: &SampleHeader = &headers[i];
        assert(h@ == header(data@, i as int));
        let len: usize = h.len_bytes;
        if len > 0 {
            if data.len() - pos < len {
                proof {
                    lemma_extract_fault(data@, start as int, i + 1, SAMPLE_COUNT as int);
                }
                return Err(ModError::SampleTruncated(i + 1));
            }
            let end: usize = pos + len;
            let id: String = sample_id(i);
            let name: String = label(h, i);
            let mut file_name: String = id.clone();
            file_name.append("_");
            file_name.append(sanitize_name(name.as_str()).as_str());
            file_name.append(".wav");
            voices.insert(
                id.clone(),
                VoiceDef::Sample { sample_id: id.clone(), loop_mode: loop_mode_for(h) },
            );
            let ghost old_exports = exports@;
            let export: SampleExport = SampleExport { id, name, file_name, pcm: pcm_of(data, pos, end) };
            exports.push(export);
            assert(export_views(exports@) =~= export_views(old_exports).push(export@));
            pos = end;
            assert(extracted(data@, start as int, i + 1)->Ok_0 =~= (Extract {
                voices: voices@,
                exports: export_views(exports@),
                end: pos as int,
            }));
        }
        i = i + 1;
    }
    Ok((voices, exports))
}

fn collect_cells(
    triggers: &Vec<Trigger>,
    durations: &Vec<u32>,
    Ghost(total_rows): Ghost<u32>,
    channel: usize,
    sample: usize,
) -> (r: Vec<Cell>)
    requires
        durations@.len() == triggers@.len(),
        forall|i: int|
            0 <= i < durations@.len() ==> #[trigger] durations@[i] == rows_of(triggers@, total_rows, i),
    ensures
        pattern::cell_views(r@) == cells_of(
            triggers@,
            total_rows,
            channel as int,
            sample as int,
            triggers@.len() as int,
        ),
{
    let mut out: Vec<Cell> = Vec::new();
    let mut i: usize = 0;
    assert(pattern::cell_views(out@) =~= Seq::<CellModel>::empty());
    while i < triggers.len()
        invariant
            i <= triggers@.len(),
            durations@.len() == triggers@.len(),
            forall|k: int|
                0 <= k < durations@.len() ==> #[trigger] durations@[k] == rows_of(
                    triggers@,
                    total_rows,
                    k,
                ),
            pattern::cell_views(out@) == cells_of(
                triggers@,
                total_rows,
                channel as int,
                sample as int,
                i as int,
            ),
        decreases triggers.len() - i,
    {
        let t: Trigger = triggers[i];
        if t.channel == channel && t.sample_index == sample {
            let ghost before = out@;
            let hz: Single = period_to_hz(t.period);
            let fx: Vec<FxNode> = Vec::new();
            let cell: Cell = Cell {
                row: t.row,
                note: Note::Hz(hz),
                pitch_ratio: Some(
                    hz.over(Single::from_int(DEFAULT_SAMPLE_RATE as i64)).max(Single::ratio(1, 1000)),
                ),
                velocity: None,
                duration_rows: Some(Single::from_int(durations[i] as i64)),
                pan: None,
                fx,
                pitch_env: None,
            };
            assert(cell@ =~= cell_of(t, rows_of(triggers@, total_rows, i as int)));
            out.push(cell);
            assert(pattern::cell_views(out@) =~= pattern::cell_views(before).push(cell@));
        }
        i = i + 1;
    }
    out
}

fn make_track(h: &SampleHeader, channel: usize, sample: usize, cells: Vec<Cell>, Ghost(data): Ghost<Seq<u8>>) -> (r:
    Track)
    requires
        channel < CHANNELS,
        sample < SAMPLE_COUNT,
        h@ == header(data, sample as int),
    ensures
        r@ == track_of(data, channel as int, sample as int, pattern::cell_views(cells@)),
{
    let mut name: String = "ch".to_owned();
    text::push_digits(&mut name, channel as u64 + 1);
    name.append(" ");
    name.append(label(h, sample).as_str());
    let fx: Vec<FxNode> = Vec::new();
    let r = Track {
        name,
        instrument: None,
        voice: Some(sample_id(sample)),
        default_amp: Some(
            Single::from_int(h.volume as i64).over(Single::from_int(64)).clamp(
                Single::of_bits(0),
                Single::of_bits(single::ONE),
            ),
        ),
        default_pan: Some(channel_pan(channel)),
        default_envelope: Some(Envelope::Gate),
        default_fx: Some(fx),
        default_duration_rows: Some(Single::of_bits(single::ONE)),
        default_pitch_env: None,
        cells,
    };
    assert(r@.default_fx->0 =~= Seq::<FxNode>::empty());
    r
}

/// One track for each sample that a channel plays.
fn make_tracks(data: &Vec<u8>, headers: &Vec<SampleHeader>, triggers: &Vec<Trigger>, total_rows: u32) -> (r: Vec<
    Track,
>)
    requires
        headers@.len() == SAMPLE_COUNT,
        forall|i: int| 0 <= i < SAMPLE_COUNT ==> (#[trigger] headers@[i])@ == header(data@, i),
    ensures
        pattern::track_views(r@) == tracks_of(data@, triggers@, total_rows, 124),
{
    let durations: Vec<u32> = trigger_durations(triggers, total_rows);
    let mut tracks: Vec<Track> = Vec::new();
    let mut n: usize = 0;
    assert(pattern::track_views(tracks@) =~= Seq::<TrackModel>::empty());
    while n < 124
        invariant
            n <= 124,
            headers@.len() == SAMPLE_COUNT,
            forall|i: int| 0 <= i < SAMPLE_COUNT ==> (#[trigger] headers@[i])@ == header(data@, i),
            durations@.len() == triggers@.len(),
            forall|k: int|
                0 <= k < durations@.len() ==> #[trigger] durations@[k] == rows_of(
                    triggers@,
                    total_rows,
                    k,
                ),
            pattern::track_views(tracks@) == tracks_of(data@, triggers@, total_rows, n as int),
        decreases 124 - n,
    {
        let channel: usize = n / 31;
        let sample: usize = n % 31;
        let cells: Vec<Cell> = collect_cells(triggers, &durations, Ghost(total_rows), channel, sample);
        assert(pattern::cell_views(cells@).len() == cells@.len());
        if cells.len() > 0 {
            let ghost before = tracks@;
            let track: Track = make_track(&headers[sample], channel, sample, cells, Ghost(data@));
            tracks.push(track);
            assert(pattern::track_views(tracks@) =~= pattern::track_views(before).push(track@));
        }
        n = n + 1;
    }
    tracks
}

proof fn lemma_highest(orders: Seq<u8>, n: int, i: int)
    requires
        0 <= i < n <= orders.len(),
    ensures
        orders[i] <= highest(orders, n) <= 255,
    decreases n,
{
    reveal_with_fuel(highest, 2);
    if i < n - 1 {
        lemma_highest(orders, n - 1, i);
    } else if n > 1 {
        lemma_highest(orders, n - 1, 0);
    }
}

proof fn lemma_highest_of_prefix(a: Seq<u8>, b: Seq<u8>, n: int)
    requires
        0 <= n <= a.len() <= b.len(),
        forall|i: int| 0 <= i < a.len() ==> a[i] == b[i],
    ensures
        highest(a, n) == highest(b, n),
    decreases n,
{
    if n > 0 {
        lemma_highest_of_prefix(a, b, n - 1);
    }
}

/// Reads a MOD file.
pub fn parse_mod(data: &Vec<u8>) -> (r: Result<ImportedMod, ModError>)
    ensures
        outcome(r) == imported(data@),
{
    if data.len() < HEADER_LEN {
        return Err(ModError::TooSmall);
    }
    let signature: String = bytes_to_ascii(data, 1080, 1084);
    if signature != "M.K.".to_owned() && signature != "M!K!".to_owned() && signature != "FLT4".to_owned()
        && signature != "4CHN".to_owned() {
        return Err(ModError::Signature(signature));
    }
    let title: String = bytes_to_ascii(data, 0, 20);
    let headers: Vec<SampleHeader> = read_headers(data);
    let song_len: usize = data[950] as usize;
    if song_len == 0 || song_len > 128 {
        return Err(ModError::SongLength(song_len));
    }
    let mut orders: Vec<u8> = Vec::new();
    let mut top: usize = 0;
    let mut o: usize = 0;
    while o < song_len
        invariant
            o <= song_len <= 128,
            data@.len() >= HEADER_LEN,
            orders@.len() == o,
            forall|k: int| 0 <= k < o ==> #[trigger] orders@[k] == data@[952 + k],
            top == highest(orders@, o as int),
            top <= 255,
        decreases song_len - o,
    {
        let order: u8 = data[952 + o];
        let ghost before = orders@;
        orders.push(order);
        proof {
            lemma_highest_of_prefix(before, orders@, o as int);
        }
        if order as usize > top {
            top = order as usize;
        }
        o = o + 1;
    }
    assert(orders@ =~= data@.subrange(952, 952 + song_len as int));
    let start: usize = HEADER_LEN + (top + 1) * PATTERN_BYTES;
    if data.len() < start {
        return Err(ModError::PatternsTruncated);
    }
    let (voices, exports) = match extract_samples(data, start, &headers) {
        Ok(found) => found,
        Err(e) => {
            return Err(e);
        },
    };
    proof {
        assert forall|k: int| 0 <= k < orders@.len() implies HEADER_LEN + ((#[trigger] orders@[k]) + 1)
            * PATTERN_BYTES <= data@.len() by {
            lemma_highest(orders@, song_len as int, k);
        }
        lemma_cut_note(data@.len() as int, HEADER_LEN as int, orders@, 0);
        assert(header_views(headers@) =~= headers_of(data@));
    }
    let triggers: Vec<Trigger> = match collect_triggers(data, HEADER_LEN, &orders, &headers) {
        Ok(found) => found,
        Err(e) => {
            return Err(e);
        },
    };
    let rows: u32 = (song_len * ROWS_PER_PATTERN) as u32;
    let tracks: Vec<Track> = make_tracks(data, &headers, &triggers, rows);
    let named: bool = title.as_str().unicode_len() > 0;
    let result: ImportedMod = ImportedMod {
        pattern: Pattern {
            sample_rate: DEFAULT_SAMPLE_RATE,
            tempo_bpm: Single::from_int(125),
            lines_per_beat: 4,
            rows,
            voices,
            samples: Table::new(),
            tracks,
            metadata: PatternMetadata {
                title: if named {
                    Some(title)
                } else {
                    None
                },
                author: Some("imported from ProTracker MOD".to_owned()),
            },
        },
        samples: exports,
    };
    assert(result.pattern@ =~= imported(data@)->Ok_0.0);
    Ok(result)
}

fn read_headers(data: &Vec<u8>) -> (r: Vec<SampleHeader>)
    requires
        data@.len() >= HEADER_LEN,
    ensures
        r@.len() == SAMPLE_COUNT,
        forall|i: int|
            0 <= i < SAMPLE_COUNT ==> (#[trigger] r@[i])@ == header(data@, i) && r@[i].len_bytes <= 131070,
{
    let mut headers: Vec<SampleHeader> = Vec::new();
    let mut i: usize = 0;
    while i < SAMPLE_COUNT
        invariant
            i <= SAMPLE_COUNT,
            data@.len() >= HEADER_LEN,
            headers@.len() == i,
            forall|k: int|
                0 <= k < i ==> (#[trigger] headers@[k])@ == header(data@, k) && headers@[k].len_bytes
                    <= 131070,
        decreases SAMPLE_COUNT - i,
    {
        headers.push(read_header(data, i));
        i = i + 1;
    }
    headers
}

proof fn lemma_voices(data: Seq<u8>, start: int, n: int, i: int)
    requires
        0 <= i < n,
        extracted(data, start, n) is Ok,
        header(data, i).len_bytes > 0,
    ensures
        extracted(data, start, n)->Ok_0.voices.dom().contains(id_of(i)),
    decreases n,
{
    if i < n - 1 {
        lemma_voices(data, start, n - 1, i);
    }
}

proof fn lemma_cells(triggers: Seq<Trigger>, total_rows: u32, channel: int, sample: int, n: int)
    requires
        0 <= n <= triggers.len(),
        forall|i: int| 0 <= i < triggers.len() ==> (#[trigger] triggers[i]).row < total_rows,
    ensures
        forall|k: int|
            0 <= k < cells_of(triggers, total_rows, channel, sample, n).len() ==> (
            #[trigger] cells_of(triggers, total_rows, channel, sample, n)[k]).row < total_rows,
        cells_of(triggers, total_rows, channel, sample, n).len() > 0 ==> exists|i: int|
            0 <= i < n && (#[trigger] triggers[i]).sample_index == sample,
    decreases n,
{
    if n > 0 {
        lemma_cells(triggers, total_rows, channel, sample, n - 1);
        let t: Trigger = triggers[n - 1];
        if t.channel == channel && t.sample_index == sample {
            assert(triggers[n - 1].sample_index == sample);
        }
    }
}

proof fn lemma_tracks(
    data: Seq<u8>,
    triggers: Seq<Trigger>,
    total_rows: u32,
    start: int,
    n: int,
    k: int,
)
    requires
        0 <= n <= 124,
        extracted(data, start, SAMPLE_COUNT as int) is Ok,
        forall|i: int|
            0 <= i < triggers.len() ==> {
                &&& (#[trigger] triggers[i]).row < total_rows
                &&& triggers[i].sample_index < SAMPLE_COUNT
                &&& header(data, triggers[i].sample_index as int).len_bytes > 0
            },
        0 <= k < tracks_of(data, triggers, total_rows, n).len(),
    ensures
        tracks_of(data, triggers, total_rows, n)[k].voice is Some,
        extracted(data, start, SAMPLE_COUNT as int)->Ok_0.voices.dom().contains(
            tracks_of(data, triggers, total_rows, n)[k].voice->0,
        ),
        forall|j: int|
            0 <= j < tracks_of(data, triggers, total_rows, n)[k].cells.len() ==> (
            #[trigger] tracks_of(data, triggers, total_rows, n)[k].cells[j]).row < total_rows,
    decreases n,
{
    if n > 0 {
        let before: Seq<TrackModel> = tracks_of(data, triggers, total_rows, n - 1);
        if k < before.len() {
            lemma_tracks(data, triggers, total_rows, start, n - 1, k);
        } else {
            let channel: int = (n - 1) / 31;
            let sample: int = (n - 1) % 31;
            lemma_cells(triggers, total_rows, channel, sample, triggers.len() as int);
            let i: int = choose|i: int|
                0 <= i < triggers.len() && (#[trigger] triggers[i]).sample_index == sample;
            assert(triggers[i].sample_index == sample);
            lemma_voices(data, start, SAMPLE_COUNT as int, sample);
        }
    }
}

/// Every track of an imported pattern plays a voice of the pattern, and every
/// cell lies in its grid.
pub proof fn law_imported_tracks(data: Seq<u8>, k: int)
    requires
        imported(data) is Ok,
        0 <= k < imported(data)->Ok_0.0.tracks.len(),
    ensures
        ({
            let p = imported(data)->Ok_0.0;
            &&& p.tracks[k].voice is Some
            &&& p.voices.dom().contains(p.tracks[k].voice->0)
            &&& forall|j: int|
                0 <= j < p.tracks[k].cells.len() ==> (#[trigger] p.tracks[k].cells[j]).row < p.rows
        }),
{
    let song_len: int = data[950] as int;
    let orders: Seq<u8> = data.subrange(952, 952 + song_len);
    let start: int = HEADER_LEN + (highest(orders, song_len) + 1) * PATTERN_BYTES;
    let headers: Seq<HeaderModel> = headers_of(data);
    lemma_scanned(data, HEADER_LEN as int, orders, headers, song_len * 256);
    let triggers: Seq<Trigger> = scanned(data, HEADER_LEN as int, orders, headers, song_len * 256).triggers;
    let rows: u32 = (song_len * ROWS_PER_PATTERN) as u32;
    assert forall|i: int| 0 <= i < triggers.len() implies (#[trigger] triggers[i]).row < rows by {}
    lemma_tracks(data, triggers, rows, start, 124, k);
}

/// The period of the `x`th note of the flattened song; 0 where it has none.
pub open spec fn period_at(data: Seq<u8>, start: int, orders: Seq<u8>, x: int) -> int {
    let off = slot(start, orders, x);
    (data[off] % 16) * 256 + data[off + 1]
}

/// The sample number of the `x`th note; 0 where it has none.
pub open spec fn number_at(data: Seq<u8>, start: int, orders: Seq<u8>, x: int) -> int {
    let off = slot(start, orders, x);
    (data[off] / 16) * 16 + data[off + 2] / 16
}

/// The sample that a channel plays at the `x`th note: the last one with data
/// that this note, or one before it on its channel, names.
pub open spec fn sample_at(
    data: Seq<u8>,
    start: int,
    orders: Seq<u8>,
    headers: Seq<HeaderModel>,
    x: int,
) -> Option<usize>
    decreases x + 4,
{
    let number = number_at(data, start, orders, x);
    if x < 0 {
        None
    } else if 1 <= number <= SAMPLE_COUNT && headers[number - 1].len_bytes > 0 {
        Some((number - 1) as usize)
    } else {
        sample_at(data, start, orders, headers, x - 4)
    }
}

/// Which note of the flattened song a trigger is.
pub open spec fn place(t: Trigger) -> int {
    t.row * 4 + t.channel
}

/// The last of the first `n` notes that is on a channel.
spec fn last_on(n: int, channel: int) -> int {
    n - 1 - (n - 1 - channel) % 4
}

/// What a channel plays is what its last note plays.
proof fn lemma_active(data: Seq<u8>, start: int, orders: Seq<u8>, headers: Seq<HeaderModel>, n: int)
    requires
        0 <= n,
    ensures
        scanned(data, start, orders, headers, n).active.len() == CHANNELS,
        forall|c: int|
            0 <= c < CHANNELS ==> #[trigger] scanned(data, start, orders, headers, n).active[c]
                == sample_at(data, start, orders, headers, last_on(n, c)),
    decreases n,
{
    if n > 0 {
        lemma_active(data, start, orders, headers, n - 1);
        let before: Scan = scanned(data, start, orders, headers, n - 1);
        let found: Scan = scanned(data, start, orders, headers, n);
        let m: int = n - 1;
        assert(last_on(n, m % 4) == m && last_on(m, m % 4) == m - 4);
        assert(before.active[m % 4] == sample_at(data, start, orders, headers, m - 4));
        assert(found.active[m % 4] == sample_at(data, start, orders, headers, m));
        assert forall|c: int| 0 <= c < CHANNELS implies #[trigger] found.active[c] == sample_at(
            data,
            start,
            orders,
            headers,
            last_on(n, c),
        ) by {
            if c != m % 4 {
                assert(last_on(n, c) == last_on(m, c));
                assert(found.active[c] == before.active[c]);
            }
        }
    }
}

/// One more note is one more trigger, or none.
proof fn lemma_one_more(data: Seq<u8>, start: int, orders: Seq<u8>, headers: Seq<HeaderModel>, m: int)
    requires
        0 <= m < 0x4_0000_0000,
    ensures
        ({
            let before = scanned(data, start, orders, headers, m).triggers;
            let now = scanned(data, start, orders, headers, m + 1).triggers;
            let period = period_at(data, start, orders, m);
            let sample = sample_at(data, start, orders, headers, m);
            if period > 0 && sample is Some {
                &&& now == before.push(now[before.len() as int])
                &&& place(now[before.len() as int]) == m
                &&& now[before.len() as int].channel == m % 4
                &&& now[before.len() as int].period == period
                &&& now[before.len() as int].sample_index == sample->0
            } else {
                now == before
            }
        }),
{
    lemma_active(data, start, orders, headers, m);
    lemma_active(data, start, orders, headers, m + 1);
    let found: Scan = scanned(data, start, orders, headers, m + 1);
    assert(last_on(m + 1, m % 4) == m);
    assert(found.active[m % 4] == sample_at(data, start, orders, headers, m));
    assert((m / 4) * 4 + m % 4 == m);
}

/// Whether a trigger is that of a note among the first `n`.
pub open spec fn is_note(
    data: Seq<u8>,
    start: int,
    orders: Seq<u8>,
    headers: Seq<HeaderModel>,
    n: int,
    t: Trigger,
) -> bool {
    &&& 0 <= place(t) < n
    &&& t.channel < CHANNELS
    &&& t.period == period_at(data, start, orders, place(t))
    &&& t.period > 0
    &&& sample_at(data, start, orders, headers, place(t)) == Some(t.sample_index)
}

pub proof fn lemma_triggers_are_notes(
    data: Seq<u8>,
    start: int,
    orders: Seq<u8>,
    headers: Seq<HeaderModel>,
    n: int,
)
    requires
        0 <= n <= 0x4_0000_0000,
    ensures
        ({
            let ts = scanned(data, start, orders, headers, n).triggers;
            &&& forall|i: int|
                0 <= i < ts.len() ==> is_note(data, start, orders, headers, n, #[trigger] ts[i])
            &&& forall|i: int, j: int| 0 <= i < j < ts.len() ==> place(ts[i]) < place(ts[j])
            &&& forall|x: int|
                0 <= x < n && #[trigger] period_at(data, start, orders, x) > 0 && sample_at(
                    data,
                    start,
                    orders,
                    headers,
                    x,
                ) is Some ==> exists|i: int| 0 <= i < ts.len() && place(#[trigger] ts[i]) == x
        }),
    decreases n,
{
    if n > 0 {
        let m: int = n - 1;
        lemma_triggers_are_notes(data, start, orders, headers, m);
        lemma_one_more(data, start, orders, headers, m);
        let before: Seq<Trigger> = scanned(data, start, orders, headers, m).triggers;
        let ts: Seq<Trigger> = scanned(data, start, orders, headers, n).triggers;
        assert forall|i: int| 0 <= i < ts.len() implies is_note(
            data,
            start,
            orders,
            headers,
            n,
            #[trigger] ts[i],
        ) by {
            if i < before.len() {
                assert(ts[i] == before[i]);
            }
        }
        assert forall|i: int, j: int| 0 <= i < j < ts.len() implies place(ts[i]) < place(ts[j]) by {
            assert(ts[i] == before[i]);
            assert(is_note(data, start, orders, headers, m, before[i]));
            if j < before.len() {
                assert(ts[j] == before[j]);
            }
        }
        assert forall|x: int|
            0 <= x < n && #[trigger] period_at(data, start, orders, x) > 0 && sample_at(
                data,
                start,
                orders,
                headers,
                x,
            ) is Some implies exists|i: int| 0 <= i < ts.len() && place(#[trigger] ts[i]) == x by {
            if x < m {
                let i: int = choose|i: int| 0 <= i < before.len() && place(#[trigger] before[i]) == x;
                assert(ts[i] == before[i]);
            } else {
                assert(place(ts[before.len() as int]) == x);
            }
        }
    }
}

/// Triggers come row by row, and in a row channel by channel.
pub proof fn law_triggers_come_in_order(
    data: Seq<u8>,
    start: int,
    orders: Seq<u8>,
    headers: Seq<HeaderModel>,
    n: int,
    i: int,
    j: int,
)
    requires
        0 <= n <= 0x4_0000_0000,
        0 <= i < j < scanned(data, start, orders, headers, n).triggers.len(),
    ensures
        ({
            let ts = scanned(data, start, orders, headers, n).triggers;
            ts[i].row < ts[j].row || (ts[i].row == ts[j].row && ts[i].channel < ts[j].channel)
        }),
{
    lemma_triggers_are_notes(data, start, orders, headers, n);
    let ts: Seq<Trigger> = scanned(data, start, orders, headers, n).triggers;
    assert(is_note(data, start, orders, headers, n, ts[i]) && is_note(data, start, orders, headers, n, ts[j]));
    assert(place(ts[i]) < place(ts[j]));
}

/// There is a trigger for exactly those notes that have a period, on a channel
/// that has been given a sample with data; it plays that sample, in that
/// period.
pub proof fn law_triggers_are_the_notes_that_sound(
    data: Seq<u8>,
    start: int,
    orders: Seq<u8>,
    headers: Seq<HeaderModel>,
    n: int,
    x: int,
)
    requires
        0 <= x < n <= 0x4_0000_0000,
    ensures
        ({
            let ts = scanned(data, start, orders, headers, n).triggers;
            let sample = sample_at(data, start, orders, headers, x);
            &&& period_at(data, start, orders, x) > 0 && sample is Some <==> exists|i: int|
                0 <= i < ts.len() && (#[trigger] ts[i]).row == x / 4 && ts[i].channel == x % 4
            &&& forall|i: int|
                0 <= i < ts.len() && (#[trigger] ts[i]).row == x / 4 && ts[i].channel == x % 4
                    ==> sample == Some(ts[i].sample_index) && ts[i].period == period_at(
                    data,
                    start,
                    orders,
                    x,
                )
        }),
{
    lemma_triggers_are_notes(data, start, orders, headers, n);
    let ts: Seq<Trigger> = scanned(data, start, orders, headers, n).triggers;
    if period_at(data, start, orders, x) > 0 && sample_at(data, start, orders, headers, x) is Some {
        let i: int = choose|i: int| 0 <= i < ts.len() && place(#[trigger] ts[i]) == x;
        assert(ts[i].row == x / 4 && ts[i].channel == x % 4);
    }
    assert forall|i: int|
        0 <= i < ts.len() && (#[trigger] ts[i]).row == x / 4 && ts[i].channel == x % 4 implies sample_at(
        data,
        start,
        orders,
        headers,
        x,
    ) == Some(ts[i].sample_index) && ts[i].period == period_at(data, start, orders, x) && ts[i].period > 0 by {
        assert(is_note(data, start, orders, headers, n, ts[i]));
        assert(place(ts[i]) == x);
    }
}

/// A trigger sounds at least one row, and never past a trigger that comes
/// after it on its channel, unless that one is in the same row.
pub proof fn law_trigger_stops_at_next(triggers: Seq<Trigger>, total_rows: u32, i: int, j: int)
    requires
        0 <= i < triggers.len(),
        0 <= j < triggers.len(),
        comes_after(triggers, i, j),
    ensures
        rows_of(triggers, total_rows, i) >= 1,
        triggers[i].row < triggers[j].row ==> triggers[i].row + rows_of(triggers, total_rows, i)
            <= triggers[j].row,
{
    lemma_follower(triggers, i, triggers.len() as int);
}

/// A trigger that has its row on its channel for itself sounds to the next row
/// with a trigger on that channel, or to the end where there is none.
pub proof fn law_trigger_lasts_to_the_next(triggers: Seq<Trigger>, total_rows: u32, i: int)
    requires
        0 <= i < triggers.len(),
        triggers[i].channel < CHANNELS,
        triggers[i].row < total_rows,
        forall|j: int|
            0 <= j < triggers.len() && j != i && (#[trigger] triggers[j]).channel == triggers[i].channel
                ==> triggers[j].row != triggers[i].row,
    ensures
        ({
            let end = triggers[i].row + rows_of(triggers, total_rows, i);
            if exists|j: int|
                0 <= j < triggers.len() && (#[trigger] triggers[j]).channel == triggers[i].channel
                    && triggers[j].row > triggers[i].row {
                &&& exists|j: int|
                    0 <= j < triggers.len() && (#[trigger] triggers[j]).channel == triggers[i].channel
                        && triggers[j].row == end
                &&& forall|j: int|
                    0 <= j < triggers.len() && (#[trigger] triggers[j]).channel == triggers[i].channel
                        && triggers[j].row > triggers[i].row ==> end <= triggers[j].row
            } else {
                end == total_rows
            }
        }),
{
    lemma_follower(triggers, i, triggers.len() as int);
    match follower(triggers, i, triggers.len() as int) {
        Some(j) => {
            assert(comes_after(triggers, i, j));
            assert(triggers[j].row > triggers[i].row);
            assert forall|k: int|
                0 <= k < triggers.len() && (#[trigger] triggers[k]).channel == triggers[i].channel
                    && triggers[k].row > triggers[i].row implies triggers[j].row <= triggers[k].row by {
                assert(comes_after(triggers, i, k));
            }
        },
        None => {
            assert forall|k: int| 0 <= k < triggers.len() implies !((#[trigger] triggers[k]).channel
                == triggers[i].channel && triggers[k].row > triggers[i].row) by {
                assert(!comes_after(triggers, i, k));
            }
        },
    }
}

impl SampleExport {
    /// Lets a pattern find the sample, whole, at a path.
    pub fn link(&self, path: String, pattern: &mut Pattern)
        ensures
            final(pattern)@ == (PatternModel {
                samples: old(pattern)@.samples.insert(
                    self@.id,
                    SampleModel {
                        path: path@,
                        start_sample: 0,
                        end_sample: 0,
                        label: Some(self@.name),
                    },
                ),
                ..old(pattern)@
            }),
    {
        pattern.samples.insert(
            self.id.clone(),
            SampleRef { path, start_sample: 0, end_sample: 0, label: Some(self.name.clone()) },
        );
    }
}

/// The name of the directory for the samples of a pattern file.
pub fn samples_dir_name(stem: &str) -> (r: String)
    ensures
        r@ == stem@ + "_samples"@,
{
    let mut out: String = stem.to_owned();
    out.append("_samples");
    out
}

} // verus!
