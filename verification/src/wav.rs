//! WAV files, in memory.

use vstd::prelude::*;
use vstd::arithmetic::power2::*;

use crate::order;
use crate::single::Single;

verus! {

/// The errors of the WAV library.
#[verifier::external_type_specification]
#[verifier::external_body]
pub struct ExHoundError(hound::Error);

/// Why WAV data could not be written.
#[derive(Debug)]
pub enum WavError {
    Hound(hound::Error),
}

/// A WAV whose integer sample width the decoder doesn't handle.
#[derive(Clone, Copy, Debug, PartialEq, Eq, Structural)]
pub struct UnsupportedBits(pub u16);

/// Why WAV data could not be decoded.
#[derive(Debug)]
pub enum DecodeError {
    Hound(hound::Error),
    Unsupported(UnsupportedBits),
}

/// What the header of a WAV says, where its data starts, and how many samples
/// it announces.
#[derive(Clone, Copy, Debug, PartialEq, Eq, Structural)]
pub struct WavInfo {
    pub channels: u16,
    pub sample_rate: u32,
    pub bits_per_sample: u16,
    pub is_float: bool,
    pub start: u64,
    pub count: u32,
}

/// What `hound` finds in the header of a file, if it accepts it.
pub uninterp spec fn wav_info(bytes: Seq<u8>) -> Option<WavInfo>;

/// The integer samples that `hound` reads from a file, in order; `None` where
/// one cannot be read.
pub uninterp spec fn wav_ints(bytes: Seq<u8>) -> Seq<Option<i32>>;

/// `hound::WavReader::new` reads the header of a file: its `spec()`, its
/// `len()`, and, as the position of the inner reader, where the data starts.
/// What it finds depends on the bytes alone.
#[verifier::external_body]
fn open_wav(bytes: &Vec<u8>) -> (r: Result<WavInfo, hound::Error>)
    ensures
        match r {
            Ok(info) => wav_info(bytes@) == Some(info),
            Err(_) => wav_info(bytes@) is None,
        },
{
    let reader = hound::WavReader::new(std::io::Cursor::new(bytes.as_slice()))?;
    let spec = reader.spec();
    let count: u32 = reader.len();
    Ok(
        WavInfo {
            channels: spec.channels,
            sample_rate: spec.sample_rate,
            bits_per_sample: spec.bits_per_sample,
            is_float: matches!(spec.sample_format, hound::SampleFormat::Float),
            start: reader.into_inner().position(),
            count,
        },
    )
}

/// `hound::WavReader::into_samples` decodes the samples of a file as `i32`:
/// as many results as `len()` says, one for each sample that the header
/// announces. What it decodes depends on the bytes alone. It has an error only
/// where the header does.
#[verifier::external_body]
fn read_ints(bytes: &Vec<u8>) -> (r: Result<Vec<Option<i32>>, hound::Error>)
    ensures
        match r {
            Ok(samples) => {
                &&& wav_info(bytes@) is Some
                &&& samples@ == wav_ints(bytes@)
                &&& samples@.len() == wav_info(bytes@)->0.count
            },
            Err(_) => wav_info(bytes@) is None,
        },
{
    let reader = hound::WavReader::new(std::io::Cursor::new(bytes.as_slice()))?;
    Ok(reader.into_samples::<i32>().map(Result::ok).collect())
}

/// A little-endian 32-bit number.
pub open spec fn le32(bytes: Seq<u8>, at: int) -> int {
    bytes[at] + bytes[at + 1] * 0x100 + bytes[at + 2] * 0x1_0000 + bytes[at + 3] * 0x100_0000
}

/// `hound::WavWriter` writes 16-bit mono samples as a WAV file of a rate,
/// which `hound::WavReader` reads back: the same rate, width and samples.
#[verifier::external_body]
fn encode_ints(sample_rate: u32, samples: &Vec<i16>) -> (r: Result<Vec<u8>, hound::Error>)
    requires
        0 < sample_rate <= 0x7fff_ffff,
        samples@.len() * 2 + 44 <= u32::MAX,
    ensures
        r is Ok,
        wav_info(r->Ok_0@) == Some(
            WavInfo {
                channels: 1,
                sample_rate,
                bits_per_sample: 16,
                is_float: false,
                start: 44,
                count: samples@.len() as u32,
            },
        ),
        wav_ints(r->Ok_0@) == samples@.map_values(|s: i16| Some(s as i32)),
{
    let sample_format = hound::SampleFormat::Int;
    let spec = hound::WavSpec { channels: 1, sample_rate, bits_per_sample: 16, sample_format };
    let mut out = std::io::Cursor::new(Vec::new());
    let mut writer = hound::WavWriter::new(&mut out, spec)?;
    for s in samples {
        writer.write_sample(*s)?;
    }
    writer.finalize()?;
    Ok(out.into_inner())
}

/// `hound::WavWriter` writes interleaved stereo samples, each with the bytes
/// of its pattern, as a 32-bit float WAV file of a rate: a header of 68 bytes
/// that ends in the length of the data, then the samples. It has an error
/// only where the last frame lacks its second sample.
#[verifier::external_body]
fn encode_floats(sample_rate: u32, samples: &Vec<Single>) -> (r: Result<Vec<u8>, hound::Error>)
    requires
        0 < sample_rate <= 0x1fff_ffff,
        samples@.len() * 4 + 68 <= u32::MAX,
    ensures
        r is Ok <==> samples@.len() % 2 == 0,
        r is Ok ==> {
            &&& wav_info(r->Ok_0@) == Some(
                WavInfo {
                    channels: 2,
                    sample_rate,
                    bits_per_sample: 32,
                    is_float: true,
                    start: 68,
                    count: samples@.len() as u32,
                },
            )
            &&& r->Ok_0@.len() == 68 + 4 * samples@.len()
            &&& le32(r->Ok_0@, 64) == 4 * samples@.len()
            &&& forall|i: int|
                0 <= i < samples@.len() ==> le32(r->Ok_0@, 68 + 4 * i) == (#[trigger] samples@[i]).bits
        },
{
    let sample_format = hound::SampleFormat::Float;
    let spec = hound::WavSpec { channels: 2, sample_rate, bits_per_sample: 32, sample_format };
    let mut out = std::io::Cursor::new(Vec::new());
    let mut writer = hound::WavWriter::new(&mut out, spec)?;
    for s in samples {
        writer.write_sample(s.bits as i32)?;
    }
    writer.finalize()?;
    Ok(out.into_inner())
}

/// Bytes of a stored sample.
pub open spec fn stored_width(bytes: Seq<u8>, info: WavInfo) -> int {
    le32(bytes, info.start - 4) / info.count as int
}

/// The first `n` float samples of a file: those of 32 bits in 4 bytes that
/// lie within the file.
pub open spec fn floats(bytes: Seq<u8>, info: WavInfo, n: int) -> Seq<Single>
    decreases n,
{
    if n <= 0 || info.start < 4 || info.start > bytes.len() || info.bits_per_sample != 32 || stored_width(
        bytes,
        info,
    ) != 4 {
        Seq::empty()
    } else if info.start + 4 * n <= bytes.len() {
        floats(bytes, info, n - 1).push(Single { bits: le32(bytes, info.start + 4 * (n - 1)) as u32 })
    } else {
        floats(bytes, info, n - 1)
    }
}

/// The samples that could be read.
pub open spec fn readable(ints: Seq<Option<i32>>) -> Seq<i32>
    decreases ints.len(),
{
    if ints.len() == 0 {
        Seq::empty()
    } else {
        match ints.last() {
            Some(s) => readable(ints.drop_last()).push(s),
            None => readable(ints.drop_last()),
        }
    }
}

/// The integer that stands for full scale, where the width is supported.
pub open spec fn full_scale(bits: u16) -> Option<int> {
    if bits == 16 {
        Some(32767)
    } else if bits == 24 {
        Some(0x80_0000)
    } else if bits == 32 {
        Some(0x8000_0000)
    } else if bits == 8 {
        Some(127)
    } else {
        None
    }
}

/// An integer sample as a part of full scale, clamped to `[-1, 1]`: of 8 and
/// 16 bits the most negative sample lies beyond full scale.
pub open spec fn scaled_sample(s: i32, scale: int) -> Single {
    Single::of_int(s as int).quotient(Single::of_int(scale)).clamped(
        Single { bits: crate::single::MINUS_ONE },
        Single { bits: crate::single::ONE },
    )
}

/// The sum of `n` samples from `at` on, in order.
pub open spec fn frame_sum(samples: Seq<Single>, at: int, n: int) -> Single
    decreases n,
{
    if n <= 1 {
        samples[at]
    } else {
        frame_sum(samples, at, n - 1).sum(samples[at + n - 1])
    }
}

/// Interleaved channels folded to one by averaging them.
pub open spec fn folded(samples: Seq<Single>, channels: u16) -> Seq<Single> {
    if channels <= 1 {
        samples
    } else {
        Seq::new(
            (samples.len() / channels as nat),
            |f: int|
                frame_sum(samples, f * channels, channels as int).quotient(
                    Single::of_int(channels as int),
                ),
        )
    }
}

/// What a file decodes to, given its header and its integer samples: one
/// channel, and the native rate.
pub open spec fn decoded(bytes: Seq<u8>, info: WavInfo, ints: Seq<Option<i32>>) -> Result<
    (Seq<Single>, u32),
    UnsupportedBits,
> {
    if info.is_float {
        Ok((folded(floats(bytes, info, info.count as int), info.channels), info.sample_rate))
    } else {
        match full_scale(info.bits_per_sample) {
            None => Err(UnsupportedBits(info.bits_per_sample)),
            Some(scale) => Ok(
                (
                    folded(
                        readable(ints).map_values(|s: i32| scaled_sample(s, scale)),
                        info.channels,
                    ),
                    info.sample_rate,
                ),
            ),
        }
    }
}

fn read_le32(bytes: &Vec<u8>, at: usize) -> (r: u32)
    requires
        at + 4 <= bytes.len(),
    ensures
        r == le32(bytes@, at as int),
{
    bytes[at] as u32 + bytes[at + 1] as u32 * 0x100 + bytes[at + 2] as u32 * 0x1_0000 + bytes[at + 3] as u32
        * 0x100_0000
}

fn read_floats(bytes: &Vec<u8>, info: WavInfo) -> (r: Vec<Single>)
    ensures
        r@ == floats(bytes@, info, info.count as int),
{
    let mut out: Vec<Single> = Vec::new();
    let size: usize = bytes.len();
    if info.count == 0 || info.start < 4 || info.start > size as u64 || info.bits_per_sample != 32 {
        return out;
    }
    let start: usize = info.start as usize;
    if read_le32(bytes, start - 4) / info.count != 4 {
        return out;
    }
    let mut i: u32 = 0;
    while i < info.count
        invariant
            i <= info.count,
            size == bytes.len(),
            start == info.start,
            4 <= start <= size,
            info.bits_per_sample == 32,
            info.count > 0,
            stored_width(bytes@, info) == 4,
            out@ == floats(bytes@, info, i as int),
        decreases info.count - i,
    {
        if (size - start) as u64 >= 4 * (i as u64 + 1) {
            let at: usize = start + 4 * i as usize;
            out.push(Single::of_bits(read_le32(bytes, at)));
        }
        i = i + 1;
    }
    out
}

fn keep_readable(ints: &Vec<Option<i32>>, scale: i64) -> (r: Vec<Single>)
    requires
        scale > 0,
    ensures
        r@ == readable(ints@).map_values(|s: i32| scaled_sample(s, scale as int)),
{
    let unit: Single = Single::from_int(scale);
    let mut out: Vec<Single> = Vec::new();
    let ghost f = |s: i32| scaled_sample(s, scale as int);
    let mut i: usize = 0;
    assert(readable(ints@.take(0)).map_values(f) =~= Seq::<Single>::empty());
    while i < ints.len()
        invariant
            i <= ints@.len(),
            unit == Single::of_int(scale as int),
            f == (|s: i32| scaled_sample(s, scale as int)),
            out@ == readable(ints@.take(i as int)).map_values(f),
        decreases ints.len() - i,
    {
        let ghost before = ints@.take(i as int);
        assert(ints@.take(i + 1).drop_last() =~= before);
        if let Some(s) = ints[i] {
            let part: Single = Single::from_int(s as i64).over(unit);
            out.push(
                part.clamp(
                    Single::of_bits(crate::single::MINUS_ONE),
                    Single::of_bits(crate::single::ONE),
                ),
            );
            assert(readable(before).push(s).map_values(f) =~= readable(before).map_values(f).push(f(s)));
        }
        i = i + 1;
    }
    assert(ints@.take(i as int) =~= ints@);
    out
}

/// Folds interleaved channels to one by averaging them.
fn fold(samples: Vec<Single>, channels: u16) -> (r: Vec<Single>)
    ensures
        r@ == folded(samples@, channels),
{
    if channels <= 1 {
        return samples;
    }
    let width: usize = channels as usize;
    let size: usize = samples.len();
    let frames: usize = size / width;
    let share: Single = Single::from_natural(channels as u64);
    let mut mono: Vec<Single> = Vec::new();
    let mut f: usize = 0;
    while f < frames
        invariant
            channels > 1,
            width == channels,
            size == samples@.len(),
            frames == size / width,
            f <= frames,
            share == Single::of_int(channels as int),
            mono@.len() == f,
            forall|k: int|
                0 <= k < f ==> #[trigger] mono@[k] == frame_sum(samples@, k * channels, channels as int).quotient(
                    Single::of_int(channels as int),
                ),
        decreases frames - f,
    {
        assert(f * width + width <= size) by (nonlinear_arith)
            requires
                f < frames,
                frames == size / width,
                width > 0,
        ;
        let at: usize = f * width;
        let mut total: Single = samples[at];
        let mut c: usize = 1;
        while c < width
            invariant
                1 <= c <= width,
                at == f * width,
                at + width <= samples.len(),
                total == frame_sum(samples@, at as int, c as int),
            decreases width - c,
        {
            total = total.plus(samples[at + c]);
            c = c + 1;
        }
        mono.push(total.over(share));
        f = f + 1;
    }
    assert(mono@ =~= folded(samples@, channels));
    mono
}

/// Decodes the samples of a file whose header and integer samples are known.
pub fn decode(bytes: &Vec<u8>, info: WavInfo, ints: &Vec<Option<i32>>) -> (r: Result<
    (Vec<Single>, u32),
    UnsupportedBits,
>)
    ensures
        match (r, decoded(bytes@, info, ints@)) {
            (Ok((samples, rate)), Ok((s, n))) => samples@ == s && rate == n,
            (Err(e), Err(f)) => e == f,
            _ => false,
        },
{
    if info.is_float {
        return Ok((fold(read_floats(bytes, info), info.channels), info.sample_rate));
    }
    let scale: i64 = if info.bits_per_sample == 16 {
        32767
    } else if info.bits_per_sample == 24 {
        0x80_0000
    } else if info.bits_per_sample == 32 {
        0x8000_0000
    } else if info.bits_per_sample == 8 {
        127
    } else {
        return Err(UnsupportedBits(info.bits_per_sample));
    };
    Ok((fold(keep_readable(ints, scale), info.channels), info.sample_rate))
}

proof fn lemma_readable_length(ints: Seq<Option<i32>>)
    ensures
        readable(ints).len() <= ints.len(),
    decreases ints.len(),
{
    if ints.len() > 0 {
        lemma_readable_length(ints.drop_last());
    }
}

proof fn lemma_floats_length(bytes: Seq<u8>, info: WavInfo, n: int)
    requires
        0 <= n,
    ensures
        floats(bytes, info, n).len() <= n,
    decreases n,
{
    if n > 0 {
        lemma_floats_length(bytes, info, n - 1);
    }
}

/// A file has no more frames than its header announces samples.
proof fn lemma_decoded_length(bytes: Seq<u8>, info: WavInfo, ints: Seq<Option<i32>>)
    requires
        ints.len() == info.count,
    ensures
        decoded(bytes, info, ints) matches Ok((samples, _)) ==> samples.len() <= info.count,
{
    lemma_readable_length(ints);
    lemma_floats_length(bytes, info, info.count as int);
    let channels: nat = info.channels as nat;
    if channels > 1 {
        assert forall|n: nat| #[trigger] (n / channels) <= n by {
            assert(n / channels <= n) by (nonlinear_arith)
                requires
                    channels > 1,
            ;
        }
    }
}

/// What decoding a whole file says: nothing where its header is refused.
pub open spec fn wav_mono(bytes: Seq<u8>) -> Option<Result<(Seq<Single>, u32), UnsupportedBits>> {
    match wav_info(bytes) {
        None => None,
        Some(info) => Some(decoded(bytes, info, wav_ints(bytes))),
    }
}

/// Decodes a WAV file to one channel plus its native sample rate.
///
/// Integer samples are scaled to [-1, 1]; 8-bit ones are taken as signed.
/// Several channels are folded to one by averaging. The native rate is
/// returned untouched: callers that don't resample can ignore it.
pub fn decode_wav_mono(bytes: &Vec<u8>) -> (r: Result<(Vec<Single>, u32), DecodeError>)
    ensures
        match (r, wav_mono(bytes@)) {
            (Ok((samples, rate)), Some(Ok((s, n)))) => samples@ == s && rate == n && s.len() <= u32::MAX,
            (Err(DecodeError::Unsupported(e)), Some(Err(f))) => e == f,
            (Err(DecodeError::Hound(_)), None) => true,
            _ => false,
        },
{
    let info: WavInfo = match open_wav(bytes) {
        Ok(info) => info,
        Err(e) => {
            return Err(DecodeError::Hound(e));
        },
    };
    let ints: Vec<Option<i32>> = match read_ints(bytes) {
        Ok(ints) => ints,
        Err(e) => {
            return Err(DecodeError::Hound(e));
        },
    };
    proof {
        lemma_decoded_length(bytes@, info, ints@);
    }
    match decode(bytes, info, &ints) {
        Ok(found) => Ok(found),
        Err(e) => Err(DecodeError::Unsupported(e)),
    }
}

/// Whether a file holds interleaved stereo samples as 32-bit floats.
pub open spec fn holds_stereo(bytes: Seq<u8>, sample_rate: u32, samples: Seq<Single>) -> bool {
    &&& wav_info(bytes) == Some(
        WavInfo {
            channels: 2,
            sample_rate,
            bits_per_sample: 32,
            is_float: true,
            start: 68,
            count: samples.len() as u32,
        },
    )
    &&& bytes.len() == 68 + 4 * samples.len()
    &&& le32(bytes, 64) == 4 * samples.len()
    &&& forall|i: int| 0 <= i < samples.len() ==> le32(bytes, 68 + 4 * i) == (#[trigger] samples[i]).bits
}

/// The bytes of a 32-bit-float WAV file with an interleaved stereo buffer.
pub fn write_stereo_f32(sample_rate: u32, interleaved: &Vec<Single>) -> (r: Result<Vec<u8>, WavError>)
    requires
        0 < sample_rate <= 0x1fff_ffff,
        interleaved@.len() * 4 + 68 <= u32::MAX,
    ensures
        r is Ok <==> interleaved@.len() % 2 == 0,
        r is Ok ==> holds_stereo(r->Ok_0@, sample_rate, interleaved@),
{
    match encode_floats(sample_rate, interleaved) {
        Ok(bytes) => Ok(bytes),
        Err(e) => Err(WavError::Hound(e)),
    }
}

/// The part of a value that 16 bits hold: full scale at 1, cut toward zero.
pub open spec fn quantized(s: Single) -> int {
    let x = s.clamped(Single { bits: crate::single::MINUS_ONE }, Single { bits: crate::single::ONE }).product(
        Single::of_int(32767),
    );
    if x.negative() {
        -(x.negated().truncated(32768))
    } else {
        x.truncated(32767) as int
    }
}

/// The part of a value that 16 bits hold.
pub fn quantize(s: Single) -> (r: i16)
    ensures
        r == quantized(s),
{
    let x: Single = s.clamp(
        Single::of_bits(crate::single::MINUS_ONE),
        Single::of_bits(crate::single::ONE),
    ).times(Single::from_int(32767));
    if x.is_negative() {
        let n: u64 = x.negate().to_natural();
        if n > 32768 {
            -32768
        } else {
            (-(n as i64)) as i16
        }
    } else {
        let n: u64 = x.to_natural();
        if n > 32767 {
            32767
        } else {
            n as i16
        }
    }
}

/// Whether a file holds mono samples as 16-bit integers.
pub open spec fn holds_mono(bytes: Seq<u8>, sample_rate: u32, samples: Seq<Single>) -> bool {
    &&& wav_info(bytes) == Some(
        WavInfo {
            channels: 1,
            sample_rate,
            bits_per_sample: 16,
            is_float: false,
            start: 44,
            count: samples.len() as u32,
        },
    )
    &&& wav_ints(bytes) == samples.map_values(|s: Single| Some(quantized(s) as i32))
}

/// The bytes of a 16-bit WAV file with one channel.
pub fn write_mono_wav(sample_rate: u32, samples: &Vec<Single>) -> (r: Result<Vec<u8>, WavError>)
    requires
        0 < sample_rate <= 0x7fff_ffff,
        samples@.len() * 2 + 44 <= u32::MAX,
    ensures
        r is Ok,
        holds_mono(r->Ok_0@, sample_rate, samples@),
{
    let mut ints: Vec<i16> = Vec::new();
    let mut i: usize = 0;
    while i < samples.len()
        invariant
            i <= samples@.len(),
            ints@.len() == i,
            forall|k: int| 0 <= k < i ==> #[trigger] ints@[k] == quantized(samples@[k]),
        decreases samples.len() - i,
    {
        ints.push(quantize(samples[i]));
        i = i + 1;
    }
    match encode_ints(sample_rate, &ints) {
        Ok(bytes) => {
            assert(wav_ints(bytes@) =~= samples@.map_values(|s: Single| Some(quantized(s) as i32)));
            Ok(bytes)
        },
        Err(e) => Err(WavError::Hound(e)),
    }
}

pub proof fn lemma_all_readable(ints: Seq<Option<i32>>)
    requires
        forall|i: int| 0 <= i < ints.len() ==> #[trigger] ints[i] is Some,
    ensures
        readable(ints) == ints.map_values(|s: Option<i32>| s->0),
    decreases ints.len(),
{
    if ints.len() > 0 {
        lemma_all_readable(ints.drop_last());
        assert(ints.last() == ints[ints.len() - 1]);
    }
    assert(readable(ints) =~= ints.map_values(|s: Option<i32>| s->0));
}

/// What 16 bits hold of a value lies within full scale, so that reading it
/// clamps nothing.
proof fn lemma_quantized(s: Single)
    ensures
        -32767 <= quantized(s) <= 32767,
        order::within(Single::of_int(quantized(s)).quotient(Single::of_int(32767)), 1),
        scaled_sample(quantized(s) as i32, 32767) == Single::of_int(quantized(s)).quotient(
            Single::of_int(32767),
        ),
{
    let unit: nat = pow2(crate::single::UNIT as nat);
    let c: Single = s.clamped(
        Single { bits: crate::single::MINUS_ONE },
        Single { bits: crate::single::ONE },
    );
    let full: Single = Single::of_int(32767);
    let x: Single = c.product(full);
    order::lemma_within_one(s);
    order::lemma_within_one(c);
    let bits: nat = order::lemma_whole(32767);
    lemma_pow2_pos(crate::single::UNIT as nat);
    if s.nan() {
        assert(x.nan()) by {
            reveal(Single::product);
        }
    } else {
        order::lemma_product_within(c, full, 1, 32767);
        assert(x.size() / unit <= 32767) by (nonlinear_arith)
            requires
                x.size() <= 32767 * unit,
                unit > 0,
        ;
        assert(x.negated().size() == x.size());
    }
    let q: int = quantized(s);
    order::lemma_of_int_size(q);
    assert(Single::of_int(q).size() <= full.size()) by (nonlinear_arith)
        requires
            Single::of_int(q).size() == (if q < 0 { -q } else { q }) * unit,
            full.size() == 32767 * unit,
            -32767 <= q <= 32767,
    ;
    order::lemma_quotient_within(Single::of_int(q), full);
    order::lemma_within_one(Single::of_int(q).quotient(full));
}

/// A mono file reads back as the values that 16 bits could hold, at the rate
/// that was written.
pub proof fn law_mono_reads_back(bytes: Seq<u8>, sample_rate: u32, samples: Seq<Single>)
    requires
        holds_mono(bytes, sample_rate, samples),
    ensures
        wav_mono(bytes) == Some(
            Ok::<(Seq<Single>, u32), UnsupportedBits>(
                (
                    samples.map_values(
                        |s: Single| Single::of_int(quantized(s)).quotient(Single::of_int(32767)),
                    ),
                    sample_rate,
                ),
            ),
        ),
{
    lemma_all_readable(wav_ints(bytes));
    assert forall|i: int| 0 <= i < samples.len() implies scaled_sample(
        quantized(#[trigger] samples[i]) as i32,
        32767,
    ) == Single::of_int(quantized(samples[i])).quotient(Single::of_int(32767)) by {
        lemma_quantized(samples[i]);
    }
    assert(readable(wav_ints(bytes)).map_values(|s: i32| scaled_sample(s, 32767)) =~= samples.map_values(|s: Single| Single::of_int(quantized(s)).quotient(Single::of_int(32767))));
}

/// Whether all values lie in `[-1, 1]`.
pub open spec fn in_range(samples: Seq<Single>) -> bool {
    forall|i: int|
        0 <= i < samples.len() ==> (Single { bits: crate::single::MINUS_ONE }).at_most(
            #[trigger] samples[i],
        ) && samples[i].at_most(Single { bits: crate::single::ONE })
}

proof fn lemma_scaled_sample(s: i32, scale: int)
    requires
        0 < scale <= 0x8000_0000,
    ensures
        order::within(scaled_sample(s, scale), 1),
        s == 0 ==> scaled_sample(s, scale).bits == 0,
{
    let a: Single = Single::of_int(s as int);
    let b: Single = Single::of_int(scale);
    order::lemma_of_int_finite(s as int);
    order::lemma_of_int_finite(scale);
    let part: Single = a.quotient(b);
    assert(!part.nan()) by {
        reveal(Single::quotient);
    }
    order::lemma_within_one(part);
    if s == 0 {
        order::lemma_zero_over(b);
    }
}

proof fn lemma_frame_sum(samples: Seq<Single>, at: int, n: int)
    requires
        0 <= at,
        1 <= n < 0x100_0000,
        at + n <= samples.len(),
        forall|i: int| 0 <= i < samples.len() ==> order::within(#[trigger] samples[i], 1),
    ensures
        order::within(frame_sum(samples, at, n), n as nat),
    decreases n,
{
    if n > 1 {
        lemma_frame_sum(samples, at, n - 1);
        order::lemma_sum_within(
            frame_sum(samples, at, n - 1),
            samples[at + n - 1],
            (n - 1) as nat,
            1,
        );
    }
}

/// Averaging the channels of a frame leaves the range `[-1, 1]` as little as
/// reading an integer sample does.
proof fn lemma_folded(samples: Seq<Single>, channels: u16)
    requires
        forall|i: int| 0 <= i < samples.len() ==> order::within(#[trigger] samples[i], 1),
    ensures
        in_range(samples),
        in_range(folded(samples, channels)),
{
    assert forall|i: int| 0 <= i < samples.len() implies (Single {
        bits: crate::single::MINUS_ONE,
    }).at_most(#[trigger] samples[i]) && samples[i].at_most(Single { bits: crate::single::ONE }) by {
        order::lemma_within_one(samples[i]);
    }
    let n: int = channels as int;
    if n > 1 {
        let all: Seq<Single> = folded(samples, channels);
        let bits: nat = order::lemma_whole(n as nat);
        lemma_pow2_pos(crate::single::UNIT as nat);
        assert forall|f: int| 0 <= f < all.len() implies (Single {
            bits: crate::single::MINUS_ONE,
        }).at_most(#[trigger] all[f]) && all[f].at_most(Single { bits: crate::single::ONE }) by {
            let size: int = samples.len() as int;
            assert(f * n + n <= size && f * n >= 0) by (nonlinear_arith)
                requires
                    0 <= f < size / n,
                    n > 1,
            ;
            lemma_frame_sum(samples, f * n, n);
            let sum: Single = frame_sum(samples, f * n, n);
            let share: Single = Single::of_int(n);
            assert(share.size() > 0) by (nonlinear_arith)
                requires
                    share.size() == n * pow2(crate::single::UNIT as nat),
                    n > 1,
                    pow2(crate::single::UNIT as nat) > 0,
            ;
            order::lemma_quotient_within(sum, share);
            order::lemma_within_one(sum.quotient(share));
        }
    }
}

/// A file of integer samples decodes to values in `[-1, 1]`, each sample by
/// itself and their average over the channels; a sample of zero is zero; the
/// rate is the file's.
pub proof fn law_integers_decode_in_range(bytes: Seq<u8>, info: WavInfo, ints: Seq<Option<i32>>)
    requires
        !info.is_float,
        full_scale(info.bits_per_sample) is Some,
    ensures
        decoded(bytes, info, ints) is Ok,
        in_range(decoded(bytes, info, ints)->Ok_0.0),
        decoded(bytes, info, ints)->Ok_0.1 == info.sample_rate,
        in_range(
            readable(ints).map_values(
                |s: i32| scaled_sample(s, full_scale(info.bits_per_sample)->0),
            ),
        ),
        scaled_sample(0, full_scale(info.bits_per_sample)->0).bits == 0,
{
    let scale: int = full_scale(info.bits_per_sample)->0;
    let samples: Seq<Single> = readable(ints).map_values(|s: i32| scaled_sample(s, scale));
    assert forall|i: int| 0 <= i < samples.len() implies order::within(#[trigger] samples[i], 1) by {
        lemma_scaled_sample(readable(ints)[i], scale);
    }
    lemma_folded(samples, info.channels);
    lemma_scaled_sample(0, scale);
}

proof fn lemma_floats_read_back(bytes: Seq<u8>, sample_rate: u32, samples: Seq<Single>, n: int)
    requires
        holds_stereo(bytes, sample_rate, samples),
        0 <= n <= samples.len() <= u32::MAX,
    ensures
        floats(bytes, wav_info(bytes)->0, n) == samples.take(n),
    decreases n,
{
    let info: WavInfo = wav_info(bytes)->0;
    if n > 0 {
        lemma_floats_read_back(bytes, sample_rate, samples, n - 1);
        let count: int = samples.len() as int;
        assert((4 * count) / count == 4) by (nonlinear_arith)
            requires
                count > 0,
        ;
        assert(le32(bytes, 68 + 4 * (n - 1)) == samples[n - 1].bits);
        assert(samples.take(n) =~= samples.take(n - 1).push(samples[n - 1]));
    } else {
        assert(samples.take(n) =~= Seq::<Single>::empty());
    }
}

/// A stereo file reads back, folded to one channel, at the rate that was
/// written.
pub proof fn law_stereo_reads_back(bytes: Seq<u8>, sample_rate: u32, samples: Seq<Single>)
    requires
        holds_stereo(bytes, sample_rate, samples),
        samples.len() <= u32::MAX,
    ensures
        wav_mono(bytes) == Some(
            Ok::<(Seq<Single>, u32), UnsupportedBits>((folded(samples, 2), sample_rate)),
        ),
{
    lemma_floats_read_back(bytes, sample_rate, samples, samples.len() as int);
    assert(samples.take(samples.len() as int) =~= samples);
}

} // verus!
