//! Loaded samples: every sample that a piece refers to, as one channel, before
//! rendering.
//!
//! A sample's native rate is not resampled to the piece's: each sample of the
//! file is one sample of the piece. This is tracker convention; the
//! `pitch_ratio` of an event compensates.

use vstd::prelude::*;

use crate::piece::{Piece, SampleModel, SampleRef};
use crate::single::Single;
use crate::table;
use crate::table::Table;
use crate::wav;
use crate::wav::{decode_wav_mono, DecodeError, UnsupportedBits};

verus! {

/// The loaded samples by name.
pub struct SampleBank {
    pub samples: Table<Vec<Single>>,
}

/// Why a sample could not be loaded.
#[derive(Debug)]
pub enum SampleLoadError {
    Read { id: String, path: String, source: hound::Error },
    UnsupportedBits { id: String, bits: u16 },
    SliceOutOfRange { id: String, start: u64, end: u64, len: u64 },
}

/// What a load error says; of a file that is no WAV, only which one it is.
pub enum LoadFault {
    Read { id: Seq<char>, path: Seq<char> },
    UnsupportedBits { id: Seq<char>, bits: u16 },
    SliceOutOfRange { id: Seq<char>, start: u64, end: u64, len: nat },
}

impl View for SampleLoadError {
    type V = LoadFault;

    open spec fn view(&self) -> LoadFault {
        match *self {
            SampleLoadError::Read { id, path, source } => LoadFault::Read { id: id@, path: path@ },
            SampleLoadError::UnsupportedBits { id, bits } => LoadFault::UnsupportedBits { id: id@, bits },
            SampleLoadError::SliceOutOfRange { id, start, end, len } => LoadFault::SliceOutOfRange {
                id: id@,
                start,
                end,
                len: len as nat,
            },
        }
    }
}

impl SampleModel {
    /// The part of a file's samples that the reference names.
    pub open spec fn slice(self, id: Seq<char>, mono: Seq<Single>) -> Result<Seq<Single>, LoadFault> {
        let end = if self.end_sample == 0 {
            mono.len() as int
        } else {
            self.end_sample as int
        };
        if self.start_sample > mono.len() || end > mono.len() || self.start_sample > end {
            Err(
                LoadFault::SliceOutOfRange {
                    id,
                    start: self.start_sample,
                    end: self.end_sample,
                    len: mono.len(),
                },
            )
        } else {
            Ok(mono.subrange(self.start_sample as int, end))
        }
    }

    /// The sample that the reference names, given the bytes of its file.
    pub open spec fn loaded(self, id: Seq<char>, bytes: Seq<u8>) -> Result<Seq<Single>, LoadFault> {
        match wav::wav_mono(bytes) {
            None => Err(LoadFault::Read { id, path: self.path }),
            Some(Err(bits)) => Err(LoadFault::UnsupportedBits { id, bits: bits.0 }),
            Some(Ok((mono, _))) => self.slice(id, mono),
        }
    }
}

/// The samples of the first `n` names of an order, given the bytes of their
/// files; or the fault of the first faulty one.
pub open spec fn bank_of(
    order: Seq<Seq<char>>,
    refs: Map<Seq<char>, SampleModel>,
    files: Seq<Seq<u8>>,
    n: int,
) -> Result<Map<Seq<char>, Seq<Single>>, LoadFault>
    decreases n,
{
    if n <= 0 {
        Ok(Map::empty())
    } else {
        match bank_of(order, refs, files, n - 1) {
            Err(fault) => Err(fault),
            Ok(before) => match refs[order[n - 1]].loaded(order[n - 1], files[n - 1]) {
                Err(fault) => Err(fault),
                Ok(samples) => Ok(before.insert(order[n - 1], samples)),
            },
        }
    }
}

proof fn lemma_bank_fault(
    order: Seq<Seq<char>>,
    refs: Map<Seq<char>, SampleModel>,
    files: Seq<Seq<u8>>,
    n: int,
    m: int,
)
    requires
        0 < n <= m,
        bank_of(order, refs, files, n) is Err,
    ensures
        bank_of(order, refs, files, m) == bank_of(order, refs, files, n),
    decreases m - n,
{
    if n < m {
        lemma_bank_fault(order, refs, files, n, m - 1);
    }
}

proof fn lemma_bank_names(
    order: Seq<Seq<char>>,
    refs: Map<Seq<char>, SampleModel>,
    files: Seq<Seq<u8>>,
    n: int,
    i: int,
)
    requires
        0 <= i < n,
        bank_of(order, refs, files, n) is Ok,
    ensures
        bank_of(order, refs, files, n)->Ok_0.dom().contains(order[i]),
    decreases n,
{
    if i < n - 1 {
        lemma_bank_names(order, refs, files, n - 1, i);
    }
}

/// A loaded bank has every sample that the piece defines.
pub proof fn law_bank_is_complete(
    order: Seq<Seq<char>>,
    refs: Map<Seq<char>, SampleModel>,
    files: Seq<Seq<u8>>,
    name: Seq<char>,
)
    requires
        table::lists(order, refs),
        bank_of(order, refs, files, order.len() as int) is Ok,
        refs.dom().contains(name),
    ensures
        bank_of(order, refs, files, order.len() as int)->Ok_0.dom().contains(name),
{
    let i: int = choose|i: int| 0 <= i < order.len() && #[trigger] order[i] == name;
    lemma_bank_names(order, refs, files, order.len() as int, i);
}

/// What a list of files holds.
pub open spec fn contents(files: Seq<Vec<u8>>) -> Seq<Seq<u8>> {
    files.map_values(|f: Vec<u8>| f@)
}

impl SampleRef {
    /// The part of a file's samples that the reference names.
    pub fn cut(&self, id: &String, mono: Vec<Single>) -> (r: Result<Vec<Single>, SampleLoadError>)
        ensures
            match (r, self@.slice(id@, mono@)) {
                (Ok(v), Ok(s)) => v@ == s,
                (Err(e), Err(f)) => e@ == f,
                _ => false,
            },
    {
        let len: usize = mono.len();
        let end: u64 = if self.end_sample == 0 {
            len as u64
        } else {
            self.end_sample
        };
        if self.start_sample > len as u64 || end > len as u64 || self.start_sample > end {
            return Err(
                SampleLoadError::SliceOutOfRange {
                    id: id.clone(),
                    start: self.start_sample,
                    end: self.end_sample,
                    len: len as u64,
                },
            );
        }
        let from: usize = self.start_sample as usize;
        let to: usize = end as usize;
        let mut out: Vec<Single> = Vec::new();
        let mut i: usize = from;
        while i < to
            invariant
                from <= i <= to <= mono@.len(),
                out@ == mono@.subrange(from as int, i as int),
            decreases to - i,
        {
            out.push(mono[i]);
            i = i + 1;
            assert(mono@.subrange(from as int, i as int) =~= mono@.subrange(from as int, i - 1).push(
                mono@[i - 1],
            ));
        }
        Ok(out)
    }

    fn load(&self, id: &String, bytes: &Vec<u8>) -> (r: Result<Vec<Single>, SampleLoadError>)
        ensures
            match (r, self@.loaded(id@, bytes@)) {
                (Ok(v), Ok(s)) => v@ == s,
                (Err(e), Err(f)) => e@ == f,
                _ => false,
            },
    {
        match decode_wav_mono(bytes) {
            Ok((mono, _)) => self.cut(id, mono),
            Err(DecodeError::Unsupported(e)) => Err(
                SampleLoadError::UnsupportedBits { id: id.clone(), bits: e.0 },
            ),
            Err(DecodeError::Hound(source)) => Err(
                SampleLoadError::Read { id: id.clone(), path: self.path.clone(), source },
            ),
        }
    }
}

impl SampleBank {
    pub fn empty() -> (r: Self)
        ensures
            r.samples@ == Map::<Seq<char>, Seq<Single>>::empty(),
    {
        SampleBank { samples: Table::new() }
    }

    /// Loads every sample of a piece from the bytes of its file. The files
    /// stand in the order of the piece's table of samples.
    pub fn load(piece: &Piece, files: &Vec<Vec<u8>>) -> (r: Result<Self, SampleLoadError>)
        requires
            files@.len() == piece.samples.order().len(),
        ensures
            match (
                r,
                bank_of(
                    piece.samples.order(),
                    piece.samples@,
                    contents(files@),
                    files@.len() as int,
                ),
            ) {
                (Ok(bank), Ok(m)) => bank.samples@ == m,
                (Err(e), Err(f)) => e@ == f,
                _ => false,
            },
    {
        let ghost order = piece.samples.order();
        let n: usize = piece.samples.len();
        let mut samples: Table<Vec<Single>> = Table::new();
        let mut i: usize = 0;
        while i < n
            invariant
                i <= n,
                n == files@.len(),
                order == piece.samples.order(),
                order.len() == n,
                bank_of(order, piece.samples@, contents(files@), i as int) == Ok::<
                    Map<Seq<char>, Seq<Single>>,
                    LoadFault,
                >(samples@),
            decreases n - i,
        {
            let (id, sref) = piece.samples.entry(i);
            assert(contents(files@)[i as int] == files@[i as int]@);
            match sref.load(id, &files[i]) {
                Ok(loaded) => {
                    samples.insert(id.clone(), loaded);
                },
                Err(e) => {
                    proof {
                        lemma_bank_fault(order, piece.samples@, contents(files@), i + 1, n as int);
                    }
                    return Err(e);
                },
            }
            i = i + 1;
        }
        Ok(SampleBank { samples })
    }
}

} // verus!
