//! Notes: raw frequencies and tracker-style names.

use vstd::prelude::*;

use crate::piece::Pitch;
use crate::single::Single;
use crate::text;

verus! {

/// A note value: a raw frequency in Hz or a tracker-style note name (`"C-4"`,
/// `"A#3"`, `"Bb2"`). Names are resolved against A4 = 440 Hz.
#[derive(Debug)]
pub enum Note {
    Hz(Single),
    Name(String),
}

/// What a note says.
#[verifier::ext_equal]
pub enum NoteModel {
    Hz(Single),
    Name(Seq<char>),
}

/// Why a name is no note.
pub enum NoteFault {
    Empty,
    Letter,
    Octave,
}

impl View for Note {
    type V = NoteModel;

    open spec fn view(&self) -> NoteModel {
        match *self {
            Note::Hz(f) => NoteModel::Hz(f),
            Note::Name(s) => NoteModel::Name(s@),
        }
    }
}

impl crate::table::Replica for Note {
    fn replica(&self) -> (r: Self) {
        match self {
            Note::Hz(f) => Note::Hz(*f),
            Note::Name(s) => Note::Name(s.clone()),
        }
    }
}

/// Semitones of a letter above C.
pub open spec fn letter_offset(c: char) -> Option<int> {
    if c == 'C' || c == 'c' {
        Some(0)
    } else if c == 'D' || c == 'd' {
        Some(2)
    } else if c == 'E' || c == 'e' {
        Some(4)
    } else if c == 'F' || c == 'f' {
        Some(5)
    } else if c == 'G' || c == 'g' {
        Some(7)
    } else if c == 'A' || c == 'a' {
        Some(9)
    } else if c == 'B' || c == 'b' {
        Some(11)
    } else {
        None
    }
}

/// Semitones that the accidental of a name adds: `#` one, `b` minus one.
pub open spec fn accidental(s: Seq<char>) -> int {
    if s.len() > 1 && s[1] == '#' {
        1
    } else if s.len() > 1 && s[1] == 'b' {
        -1
    } else {
        0
    }
}

/// Where the octave of a name begins: after the letter, the accidental and an
/// optional `-`.
pub open spec fn octave_at(s: Seq<char>) -> int {
    let i: int = if accidental(s) == 0 { 1 } else { 2 };
    if i < s.len() && s[i] == '-' {
        i + 1
    } else {
        i
    }
}

/// The key of a name without white space around it: C-1 = 0, A4 = 69.
pub open spec fn key_of(s: Seq<char>) -> Result<int, NoteFault> {
    if s.len() == 0 {
        Err(NoteFault::Empty)
    } else if letter_offset(s[0]) is None {
        Err(NoteFault::Letter)
    } else {
        match text::integer(s.skip(octave_at(s))) {
            Some(octave) => if i32::MIN <= octave <= i32::MAX {
                Ok((octave + 1) * 12 + letter_offset(s[0])->0 + accidental(s))
            } else {
                Err(NoteFault::Octave)
            },
            None => Err(NoteFault::Octave),
        }
    }
}

/// How a faulty name is reported.
pub open spec fn note_message(fault: NoteFault, s: Seq<char>) -> Seq<char> {
    match fault {
        NoteFault::Empty => "empty note name"@,
        NoteFault::Letter => "bad note letter in '"@ + s + "'"@,
        NoteFault::Octave => "bad octave in '"@ + s + "'"@,
    }
}

impl NoteModel {
    /// The pitch of a note, or what is wrong with its name.
    pub open spec fn pitch(self) -> Result<Pitch, Seq<char>> {
        match self {
            NoteModel::Hz(f) => Ok(Pitch::Hz(f)),
            NoteModel::Name(s) => match key_of(text::trimmed(s)) {
                Ok(key) => Ok(Pitch::Key(key as i64)),
                Err(fault) => Err(note_message(fault, text::trimmed(s))),
            },
        }
    }
}

/// What the outcome of reading a note says.
pub open spec fn outcome(r: Result<Pitch, String>) -> Result<Pitch, Seq<char>> {
    match r {
        Ok(p) => Ok(p),
        Err(e) => Err(e@),
    }
}

fn quoted(before: &str, chars: &Vec<char>) -> (r: String)
    ensures
        r@ == before@ + chars@ + "'"@,
{
    let mut out: String = before.to_owned();
    let name: String = text::text_of(chars, 0, chars.len());
    assert(chars@.subrange(0, chars@.len() as int) =~= chars@);
    out.append(name.as_str());
    out.append("'");
    out
}

fn letter_of(c: char) -> (r: Option<i64>)
    ensures
        match r {
            Some(n) => letter_offset(c) == Some(n as int) && 0 <= n <= 11,
            None => letter_offset(c) is None,
        },
{
    if c == 'C' || c == 'c' {
        Some(0)
    } else if c == 'D' || c == 'd' {
        Some(2)
    } else if c == 'E' || c == 'e' {
        Some(4)
    } else if c == 'F' || c == 'f' {
        Some(5)
    } else if c == 'G' || c == 'g' {
        Some(7)
    } else if c == 'A' || c == 'a' {
        Some(9)
    } else if c == 'B' || c == 'b' {
        Some(11)
    } else {
        None
    }
}

/// The pitch that a name stands for.
pub fn parse_note_name(s: &str) -> (r: Result<Pitch, String>)
    ensures
        outcome(r) == NoteModel::Name(s@).pitch(),
{
    let chars: Vec<char> = text::trim(s);
    if chars.len() == 0 {
        return Err("empty note name".to_owned());
    }
    let letter: i64 = match letter_of(chars[0]) {
        Some(offset) => offset,
        None => {
            return Err(quoted("bad note letter in '", &chars));
        },
    };
    let mut i: usize = 1;
    let mut accidental: i64 = 0;
    if i < chars.len() {
        if chars[i] == '#' {
            accidental = 1;
            i = 2;
        } else if chars[i] == 'b' {
            accidental = -1;
            i = 2;
        }
    }
    if i < chars.len() && chars[i] == '-' {
        i = i + 1;
    }
    match text::parse_i32(&chars, i) {
        Some(octave) => Ok(Pitch::Key((octave as i64 + 1) * 12 + letter + accidental)),
        None => Err(quoted("bad octave in '", &chars)),
    }
}

impl Note {
    /// The pitch of the note.
    pub fn to_hz(&self) -> (r: Result<Pitch, String>)
        ensures
            outcome(r) == self@.pitch(),
    {
        match self {
            Note::Hz(f) => Ok(Pitch::Hz(*f)),
            Note::Name(s) => parse_note_name(s.as_str()),
        }
    }
}

/// Whether a character is one of the letters that name notes.
pub fn is_note_letter(ch: char) -> (r: bool)
    ensures
        r == (letter_offset(ch) is Some),
{
    match letter_of(ch) {
        Some(_) => true,
        None => false,
    }
}

/// The name of a letter in an octave: `C-4`, or `C#4` where it is sharp.
pub open spec fn note_name(letter: char, sharp: bool, octave: int) -> Seq<char> {
    seq![letter, if sharp { '#' } else { '-' }] + text::number(octave)
}

/// Writes a note name.
pub fn format_note(letter: char, sharp: bool, octave: i32) -> (r: String)
    ensures
        r@ == note_name(letter, sharp, octave as int),
{
    let mut out: String = String::new();
    out.push(letter);
    out.push(if sharp { '#' } else { '-' });
    text::push_number(&mut out, octave as i64);
    assert(out@ =~= note_name(letter, sharp, octave as int));
    out
}

proof fn lemma_name_is_trimmed(letter: char, sharp: bool, octave: int)
    requires
        letter_offset(letter) is Some,
    ensures
        text::trimmed(note_name(letter, sharp, octave)) == note_name(letter, sharp, octave),
{
    let s: Seq<char> = note_name(letter, sharp, octave);
    let n: nat = if octave < 0 { (-octave) as nat } else { octave as nat };
    text::lemma_value_of_digits(n);
    assert(s[0] == letter);
    assert(!text::is_white(s[0]));
    assert(s.last() == text::digits(n).last());
    assert(text::is_digit(text::digits(n)[text::digits(n).len() - 1]));
    assert(!text::is_white(s.last()));
}

/// A written name reads back as the key that it names. A sharp needs an
/// octave that is not negative: behind `#` a minus sign is a separator.
pub proof fn law_written_name_reads_back(letter: char, sharp: bool, octave: i32)
    requires
        letter_offset(letter) is Some,
        sharp ==> octave >= 0,
    ensures
        NoteModel::Name(note_name(letter, sharp, octave as int)).pitch() == Ok::<Pitch, Seq<char>>(
            Pitch::Key(
                ((octave + 1) * 12 + letter_offset(letter)->0 + if sharp { 1int } else { 0 }) as i64,
            ),
        ),
{
    let s: Seq<char> = note_name(letter, sharp, octave as int);
    let num: Seq<char> = text::number(octave as int);
    lemma_name_is_trimmed(letter, sharp, octave as int);
    text::law_integer_of_number(octave as int);
    assert(s[0] == letter);
    assert(s[1] == if sharp { '#' } else { '-' });
    if sharp {
        text::lemma_value_of_digits(octave as nat);
        assert(text::is_digit(num[0]));
        assert(s[2] == num[0]);
    }
    assert(octave_at(s) == 2);
    assert(s.skip(2) =~= num);
}

/// A sharp and the flat of the next letter a whole tone above name one key.
pub proof fn law_enharmonic(low: char, high: char, rest: Seq<char>)
    requires
        letter_offset(low) is Some,
        letter_offset(high) is Some,
        letter_offset(high)->0 == letter_offset(low)->0 + 2,
    ensures
        key_of(seq![low, '#'] + rest) == key_of(seq![high, 'b'] + rest),
{
    let a: Seq<char> = seq![low, '#'] + rest;
    let b: Seq<char> = seq![high, 'b'] + rest;
    assert(a[0] == low && a[1] == '#' && b[0] == high && b[1] == 'b');
    assert(rest.len() > 0 ==> a[2] == rest[0] && b[2] == rest[0]);
    assert(a.skip(2) =~= rest && b.skip(2) =~= rest);
    if rest.len() > 0 {
        assert(a.skip(3) =~= b.skip(3));
    }
    assert(octave_at(a) == octave_at(b));
    assert(a.skip(octave_at(a)) =~= b.skip(octave_at(b)));
}

/// The `-` between a letter and an octave may be left out.
pub proof fn law_separator_is_optional(letter: char, octave: nat)
    requires
        letter_offset(letter) is Some,
    ensures
        key_of(seq![letter, '-'] + text::digits(octave)) == key_of(seq![letter] + text::digits(octave)),
{
    let d: Seq<char> = text::digits(octave);
    text::lemma_value_of_digits(octave);
    let a: Seq<char> = seq![letter, '-'] + d;
    let b: Seq<char> = seq![letter] + d;
    assert(a[0] == letter && a[1] == '-' && b[0] == letter && b[1] == d[0]);
    assert(text::is_digit(d[0]));
    assert(a.skip(2) =~= d && b.skip(1) =~= d);
}

} // verus!
