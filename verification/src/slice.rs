//! WAV slicer: chops one sample into slices and makes a pattern of them.
//!
//! A slice is only a pair of offsets into the source file, so slicing is
//! non-destructive. The cuts are evenly spaced, or lie on detected onsets
//! (drum hits). The pattern has one voice and one track for each slice, laid
//! out in source order.

use vstd::prelude::*;
use vstd::arithmetic::power2::*;

use crate::compile;
use crate::double::Double;
use crate::note::{Note, NoteModel};
use crate::pattern;
use crate::pattern::{
    Cell, CellModel, Pattern, PatternError, PatternFault, PatternMetadata, PatternModel, PatternNotes,
    Track, TrackModel,
};
use crate::piece::{
    Envelope, FxNode, PieceModel, SampleLoopMode, SampleModel, SampleRef, VoiceDef, VoiceModel,
};
use crate::rounding;
use crate::single;
use crate::single::Single;
use crate::table;
use crate::table::Table;
use crate::text;
use crate::wav;
use crate::wav::{decode_wav_mono, DecodeError};

verus! {

/// Samples between two measurements of loudness.
pub const HOP: usize = 256;

/// Samples that a measurement covers.
pub const WINDOW: usize = 512;

/// Measurements that make the average.
pub const AVERAGED: usize = 16;

/// How to slice.
#[derive(Debug)]
pub struct SliceOpts {
    /// Number of equal slices (ignored when `transient` is set).
    pub slices: u32,
    /// Cut on detected onsets instead of even spacing.
    pub transient: bool,
    /// Onset sensitivity: a hop must exceed this multiple of the local average
    /// energy to count as an attack. Higher = fewer slices.
    pub threshold: Single,
    /// Minimum spacing between onsets, milliseconds.
    pub min_gap_ms: Single,
    /// The grid tempo. Left out, the tempo at which slices play back-to-back
    /// with no gap.
    pub bpm: Option<Single>,
    pub lines_per_beat: u32,
    /// Piece sample rate. Left out, the file's own.
    pub sample_rate: Option<u32>,
}

impl Default for SliceOpts {
    fn default() -> (r: Self)
        ensures
            r.slices == 16,
            !r.transient,
            r.threshold == Single::of_ratio(16, 10),
            r.min_gap_ms == Single::of_int(40),
            r.bpm is None,
            r.lines_per_beat == 4,
            r.sample_rate is None,
    {
        SliceOpts {
            slices: 16,
            transient: false,
            threshold: Single::ratio(16, 10),
            min_gap_ms: Single::from_int(40),
            bpm: None,
            lines_per_beat: 4,
            sample_rate: None,
        }
    }
}

/// Why a file could not be sliced.
#[derive(Debug)]
pub enum SliceError {
    Decode(DecodeError),
    /// The file has no samples.
    Empty,
    /// The sliced pattern does not compile.
    Compile(PatternError),
}

/// `slices` ranges of one length that span `[0, n)`; the last takes the rest.
/// One range where there are fewer samples than slices.
pub open spec fn equal_ranges(n: u64, slices: u32) -> Seq<(u64, u64)> {
    let count = if slices < 1 { 1 } else { slices as int };
    let base = n as int / count;
    if base == 0 {
        seq![(0u64, n)]
    } else {
        Seq::new(
            count as nat,
            |i: int|
                (
                    (i * base) as u64,
                    if i == count - 1 {
                        n
                    } else {
                        ((i + 1) * base) as u64
                    },
                ),
        )
    }
}

/// Whether ranges follow each other without a gap from 0 to `n`.
pub open spec fn covers(ranges: Seq<(u64, u64)>, n: u64) -> bool {
    &&& ranges.len() > 0
    &&& ranges[0].0 == 0
    &&& ranges.last().1 == n
    &&& forall|i: int| 0 <= i < ranges.len() - 1 ==> (#[trigger] ranges[i]).1 == ranges[i + 1].0
    &&& forall|i: int| 0 <= i < ranges.len() ==> (#[trigger] ranges[i]).0 <= ranges[i].1
}

/// Evenly spaced ranges.
pub fn equal_bounds(n: u64, slices: u32) -> (r: Vec<(u64, u64)>)
    ensures
        r@ == equal_ranges(n, slices),
        r@.len() <= u32::MAX,
{
    let count: u64 = if slices < 1 { 1 } else { slices as u64 };
    let base: u64 = n / count;
    if base == 0 {
        let one: Vec<(u64, u64)> = vec![(0u64, n)];
        assert(one@ =~= equal_ranges(n, slices));
        return one;
    }
    let mut out: Vec<(u64, u64)> = Vec::new();
    let mut i: u64 = 0;
    while i < count
        invariant
            i <= count <= u32::MAX,
            count == if slices < 1 {
                1
            } else {
                slices as int
            },
            base == n as int / count as int,
            base > 0,
            out@.len() == i,
            forall|k: int| 0 <= k < i ==> #[trigger] out@[k] == equal_ranges(n, slices)[k],
        decreases count - i,
    {
        assert(i * base <= n && (i + 1) * base <= n) by (nonlinear_arith)
            requires
                i < count,
                base == n as int / count as int,
                count > 0,
                base > 0,
        ;
        assert(0 <= i * base) by (nonlinear_arith);
        let start: u64 = i * base;
        let end: u64 = if i == count - 1 {
            n
        } else {
            (i + 1) * base
        };
        out.push((start, end));
        i = i + 1;
    }
    assert(out@ =~= equal_ranges(n, slices));
    out
}

/// Equal slices abut and cover the whole file.
pub proof fn law_equal_ranges_cover(n: u64, slices: u32)
    ensures
        covers(equal_ranges(n, slices), n),
{
    let count: int = if slices < 1 { 1 } else { slices as int };
    let base: int = n as int / count;
    let r: Seq<(u64, u64)> = equal_ranges(n, slices);
    if base > 0 {
        assert forall|i: int| 0 <= i < count implies 0 <= #[trigger] (i * base) <= n && (i + 1) * base <= n && i
            * base <= (i + 1) * base by {
            assert(0 <= i * base && i * base <= n && (i + 1) * base <= n && i * base <= (i + 1) * base)
                by (nonlinear_arith)
                requires
                    0 <= i < count,
                    base == n as int / count,
                    count > 0,
                    base > 0,
            ;
        }
        assert(r[0].0 == 0);
        assert forall|i: int| 0 <= i < r.len() - 1 implies (#[trigger] r[i]).1 == r[i + 1].0 by {
            assert(0 <= (i + 1) * base);
            assert(0 <= i * base);
        }
        assert forall|i: int| 0 <= i < r.len() implies (#[trigger] r[i]).0 <= r[i].1 by {
            assert(0 <= i * base);
        }
    }
}

/// The ranges between the first `k` onsets and the next; empty ones are left
/// out.
pub open spec fn ranges_of(onsets: Seq<u64>, n: u64, k: int) -> Seq<(u64, u64)>
    decreases k,
{
    if k <= 0 {
        Seq::empty()
    } else {
        let start = onsets[k - 1];
        let end = if k < onsets.len() { onsets[k] } else { n };
        let before = ranges_of(onsets, n, k - 1);
        if end > start {
            before.push((start, end))
        } else {
            before
        }
    }
}

/// The ranges that onsets cut `[0, n)` into.
pub open spec fn onset_ranges(onsets: Seq<u64>, n: u64) -> Seq<(u64, u64)> {
    if onsets.len() == 0 {
        seq![(0u64, n)]
    } else {
        ranges_of(onsets, n, onsets.len() as int)
    }
}

/// The ranges that onsets cut a file into.
pub fn bounds_from_onsets(onsets: &Vec<u64>, n: u64) -> (r: Vec<(u64, u64)>)
    ensures
        r@ == onset_ranges(onsets@, n),
{
    if onsets.len() == 0 {
        let one: Vec<(u64, u64)> = vec![(0u64, n)];
        assert(one@ =~= onset_ranges(onsets@, n));
        return one;
    }
    let mut out: Vec<(u64, u64)> = Vec::new();
    let mut i: usize = 0;
    while i < onsets.len()
        invariant
            i <= onsets@.len(),
            out@ == ranges_of(onsets@, n, i as int),
        decreases onsets.len() - i,
    {
        let start: u64 = onsets[i];
        let end: u64 = if i + 1 < onsets.len() {
            onsets[i + 1]
        } else {
            n
        };
        if end > start {
            out.push((start, end));
        }
        i = i + 1;
    }
    out
}

/// Whether onsets begin at the start of a file and rise within it.
pub open spec fn rising(onsets: Seq<u64>, n: u64) -> bool {
    &&& onsets.len() > 0
    &&& onsets[0] == 0
    &&& forall|i: int, j: int| 0 <= i < j < onsets.len() ==> onsets[i] < onsets[j]
    &&& forall|i: int| 0 <= i < onsets.len() ==> onsets[i] < n
}

proof fn lemma_ranges(onsets: Seq<u64>, n: u64, k: int)
    requires
        rising(onsets, n),
        0 <= k <= onsets.len(),
    ensures
        ranges_of(onsets, n, k).len() == k,
        forall|i: int|
            0 <= i < k ==> #[trigger] ranges_of(onsets, n, k)[i] == (
                onsets[i],
                if i + 1 < onsets.len() {
                    onsets[i + 1]
                } else {
                    n
                },
            ),
    decreases k,
{
    if k > 0 {
        lemma_ranges(onsets, n, k - 1);
    }
}

/// Slices on rising onsets abut and cover the whole file.
pub proof fn law_onset_ranges_cover(onsets: Seq<u64>, n: u64)
    requires
        rising(onsets, n),
    ensures
        covers(onset_ranges(onsets, n), n),
        onset_ranges(onsets, n).len() == onsets.len(),
{
    lemma_ranges(onsets, n, onsets.len() as int);
    let r: Seq<(u64, u64)> = onset_ranges(onsets, n);
    assert forall|i: int| 0 <= i < r.len() - 1 implies (#[trigger] r[i]).1 == r[i + 1].0 by {}
    assert forall|i: int| 0 <= i < r.len() implies (#[trigger] r[i]).0 <= r[i].1 by {
        assert(onsets[i] < n);
    }
}

/// The sum of the squares of `k` samples from `at` on.
pub open spec fn square_sum(mono: Seq<Single>, at: int, k: int) -> Single
    decreases k,
{
    if k <= 0 {
        Single { bits: 0 }
    } else {
        square_sum(mono, at, k - 1).sum(mono[at + k - 1].product(mono[at + k - 1]))
    }
}

/// The mean energy of the window of a hop.
pub open spec fn energy(mono: Seq<Single>, hop: int) -> Single {
    square_sum(mono, hop * HOP, WINDOW as int).quotient(Single::of_int(WINDOW as int))
}

/// How many windows fit.
pub open spec fn hops(n: nat) -> nat {
    if n < WINDOW {
        0
    } else {
        ((n - WINDOW) / HOP as int + 1) as nat
    }
}

/// The energy of each hop.
pub open spec fn energies(mono: Seq<Single>) -> Seq<Single> {
    Seq::new(hops(mono.len()), |i: int| energy(mono, i))
}

/// The sum of the values from `lo` up to `hi`.
pub open spec fn sum_between(s: Seq<Single>, lo: int, hi: int) -> Single
    decreases hi - lo,
{
    if hi <= lo {
        Single { bits: 0 }
    } else {
        sum_between(s, lo, hi - 1).sum(s[hi - 1])
    }
}

/// The mean energy of the hops before hop `i`.
pub open spec fn baseline(env: Seq<Single>, i: int) -> Single {
    let lo = if i > AVERAGED { i - AVERAGED } else { 0 };
    sum_between(env, lo, i).quotient(Single::of_int(i - lo))
}

/// Whether hop `i` is an attack: a rising local peak well above the average.
pub open spec fn attack(env: Seq<Single>, threshold: Single, i: int) -> bool {
    &&& env[i - 1].less(env[i])
    &&& threshold.product(baseline(env, i).larger(Single::of_ratio(1, 1000000000))).less(env[i])
    &&& i + 1 >= env.len() || env[i + 1].at_most(env[i])
}

/// Whether two attacks that many hops apart are two onsets: at least one hop,
/// and no fewer frames than the smallest gap has. The gap counts exactly, in
/// units of `2^-149` milliseconds; one below zero, or no number, asks nothing.
pub open spec fn far_enough(sr: u32, min_gap_ms: Single, hops: int) -> bool {
    &&& hops >= 1
    &&& sr == 0 || min_gap_ms.nan() || min_gap_ms.negative() || (min_gap_ms.finite() && hops * HOP * 1000
        * pow2(single::UNIT as nat) >= min_gap_ms.size() * sr)
}

/// What is known after some hops: the onsets, and the hop of the last one
/// that was found.
#[verifier::ext_equal]
pub struct Hits {
    pub onsets: Seq<u64>,
    pub last: Option<int>,
}

/// What is known after the hops before `i`.
pub open spec fn hits(env: Seq<Single>, sr: u32, threshold: Single, min_gap_ms: Single, i: int) -> Hits
    decreases i,
{
    if i <= 1 {
        Hits { onsets: seq![0u64], last: None }
    } else {
        let before = hits(env, sr, threshold, min_gap_ms, i - 1);
        let far = match before.last {
            None => true,
            Some(last) => far_enough(sr, min_gap_ms, i - 1 - last),
        };
        if attack(env, threshold, i - 1) && far {
            Hits { onsets: before.onsets.push(((i - 1) * HOP) as u64), last: Some(i - 1) }
        } else {
            before
        }
    }
}

/// Where the sounds of a file start: at 0, and at every attack that is far
/// enough from the one before it.
pub open spec fn onsets_of(mono: Seq<Single>, sr: u32, threshold: Single, min_gap_ms: Single) -> Seq<u64> {
    let env = energies(mono);
    hits(env, sr, threshold, min_gap_ms, env.len() as int).onsets
}

fn measure(mono: &Vec<Single>, at: usize) -> (r: Single)
    requires
        at + WINDOW <= mono.len(),
    ensures
        r == square_sum(mono@, at as int, WINDOW as int).quotient(Single::of_int(WINDOW as int)),
{
    let mut total: Single = Single::of_bits(0);
    let mut k: usize = 0;
    while k < WINDOW
        invariant
            k <= WINDOW,
            at + WINDOW <= mono.len(),
            total == square_sum(mono@, at as int, k as int),
        decreases WINDOW - k,
    {
        let x: Single = mono[at + k];
        total = total.plus(x.times(x));
        k = k + 1;
    }
    total.over(Single::from_int(WINDOW as i64))
}

fn measure_all(mono: &Vec<Single>) -> (r: Vec<Single>)
    ensures
        r@ == energies(mono@),
        r@.len() * HOP <= mono@.len(),
{
    let n: usize = mono.len();
    let mut env: Vec<Single> = Vec::new();
    if n < WINDOW {
        assert(env@ =~= energies(mono@));
        return env;
    }
    let count: usize = (n - WINDOW) / HOP + 1;
    let mut i: usize = 0;
    while i < count
        invariant
            n == mono.len(),
            n >= WINDOW,
            count == (n - WINDOW) / HOP as int + 1,
            i <= count,
            env@.len() == i,
            forall|k: int| 0 <= k < i ==> #[trigger] env@[k] == energy(mono@, k),
        decreases count - i,
    {
        env.push(measure(mono, i * HOP));
        i = i + 1;
    }
    assert(env@ =~= energies(mono@));
    env
}

fn is_attack(env: &Vec<Single>, threshold: Single, i: usize) -> (r: bool)
    requires
        1 <= i < env@.len(),
    ensures
        r == attack(env@, threshold, i as int),
{
    let count: usize = env.len();
    let lo: usize = if i > AVERAGED { i - AVERAGED } else { 0 };
    let mut total: Single = Single::of_bits(0);
    let mut k: usize = lo;
    while k < i
        invariant
            lo <= k <= i < env@.len(),
            total == sum_between(env@, lo as int, k as int),
        decreases i - k,
    {
        total = total.plus(env[k]);
        k = k + 1;
    }
    let base: Single = total.over(Single::from_natural((i - lo) as u64));
    let rising: bool = env[i - 1].is_less(env[i]);
    let loud: bool = threshold.times(base.max(Single::ratio(1, 1000000000))).is_less(env[i]);
    let peak: bool = i + 1 >= count || env[i + 1].is_at_most(env[i]);
    rising && loud && peak
}

proof fn lemma_hits_rise(env: Seq<Single>, sr: u32, threshold: Single, min_gap_ms: Single, i: int)
    requires
        0 <= i <= env.len(),
        env.len() * HOP <= u64::MAX,
    ensures
        ({
            let found = hits(env, sr, threshold, min_gap_ms, i);
            &&& found.onsets.len() > 0
            &&& found.onsets[0] == 0
            &&& forall|a: int, b: int|
                0 <= a < b < found.onsets.len() ==> found.onsets[a] < found.onsets[b]
            &&& forall|a: int|
                0 <= a < found.onsets.len() ==> found.onsets[a] == 0 || found.onsets[a] < i * HOP
            &&& found.last is None ==> found.onsets.len() == 1
            &&& found.last is Some ==> found.onsets.len() > 1 && found.last->0 * HOP == found.onsets.last()
                && 0 < found.last->0 < i
            &&& forall|a: int|
                1 <= a < found.onsets.len() - 1 ==> spaced(
                    sr,
                    min_gap_ms,
                    #[trigger] found.onsets[a],
                    found.onsets[a + 1],
                )
        }),
    decreases i,
{
    if i > 1 {
        lemma_hits_rise(env, sr, threshold, min_gap_ms, i - 1);
        let before: Hits = hits(env, sr, threshold, min_gap_ms, i - 1);
        let found: Hits = hits(env, sr, threshold, min_gap_ms, i);
        if found.onsets != before.onsets && before.last is Some {
            let last: int = before.last->0;
            let frames: int = (i - 1 - last) * HOP;
            let unit: int = pow2(single::UNIT as nat) as int;
            assert((i - 1 - last) * HOP * 1000 * unit == (frames * 1000) * unit) by (nonlinear_arith)
                requires
                    frames == (i - 1 - last) * HOP,
            ;
            assert(found.onsets[before.onsets.len() as int - 1] == last * HOP);
            assert(found.onsets[before.onsets.len() as int] == (i - 1) * HOP);
            if min_gap_ms.negative() {
                assert(min_gap_ms.units() * sr <= 0 <= (frames * 1000) * unit) by (nonlinear_arith)
                    requires
                        min_gap_ms.units() <= 0,
                        sr >= 0,
                        frames >= 0,
                        unit >= 0,
                ;
            } else if sr == 0 {
                assert(min_gap_ms.units() * sr <= (frames * 1000) * unit) by (nonlinear_arith)
                    requires
                        sr == 0,
                        frames >= 0,
                        unit >= 0,
                ;
            }
            assert(spaced(
                sr,
                min_gap_ms,
                found.onsets[before.onsets.len() as int - 1],
                found.onsets[before.onsets.len() as int],
            ));
        }
    }
}

/// Whether two onsets lie at least the smallest gap apart. With both sides
/// times the sample rate and the unit of values, the frames between them
/// reach `min_gap_ms / 1000` seconds.
pub open spec fn spaced(sr: u32, min_gap_ms: Single, a: u64, b: u64) -> bool {
    min_gap_ms.finite() ==> ((b - a) * 1000) * pow2(single::UNIT as nat) >= min_gap_ms.units() * sr
}

/// No two attacks become onsets that are closer than the smallest gap. The
/// leading onset at 0 is there whatever follows it.
pub proof fn law_onsets_keep_their_distance(
    mono: Seq<Single>,
    sr: u32,
    threshold: Single,
    min_gap_ms: Single,
    k: int,
)
    requires
        mono.len() <= u64::MAX,
        1 <= k < onsets_of(mono, sr, threshold, min_gap_ms).len() - 1,
    ensures
        spaced(
            sr,
            min_gap_ms,
            onsets_of(mono, sr, threshold, min_gap_ms)[k],
            onsets_of(mono, sr, threshold, min_gap_ms)[k + 1],
        ),
{
    let env: Seq<Single> = energies(mono);
    assert(env.len() * HOP <= mono.len());
    lemma_hits_rise(env, sr, threshold, min_gap_ms, env.len() as int);
}

/// Onsets begin at 0 and rise; on a file that is not empty they lie within
/// it.
pub proof fn law_onsets_rise(mono: Seq<Single>, sr: u32, threshold: Single, min_gap_ms: Single)
    requires
        0 < mono.len() <= u64::MAX,
    ensures
        rising(onsets_of(mono, sr, threshold, min_gap_ms), mono.len() as u64),
{
    let env: Seq<Single> = energies(mono);
    assert(env.len() * HOP <= mono.len());
    lemma_hits_rise(env, sr, threshold, min_gap_ms, env.len() as int);
}

/// `d * den >= num` for the whole `d` from the rounded-up quotient on.
proof fn lemma_rounded_up(num: int, den: int, q: int)
    requires
        num >= 0,
        den > 0,
        q == (num + den - 1) / den,
    ensures
        q >= 0,
        forall|d: int| #[trigger] (d * den) >= num <==> d >= q,
{
    assert(q * den <= num + den - 1 < q * den + den && q >= 0) by (nonlinear_arith)
        requires
            num >= 0,
            den > 0,
            q == (num + den - 1) / den,
    ;
    assert forall|d: int| #[trigger] (d * den) >= num <==> d >= q by {
        assert(d >= q ==> d * den >= q * den) by (nonlinear_arith)
            requires
                den > 0,
        ;
        assert(d < q ==> d * den <= q * den - den) by (nonlinear_arith)
            requires
                den > 0,
        ;
    }
}

/// The gap in frames, with the powers of two on one side.
proof fn lemma_gap(sr: u32, min_gap_ms: Single, m: nat, k: nat, d: int)
    requires
        min_gap_ms.finite(),
        !min_gap_ms.negative(),
        sr > 0,
        d >= 1,
        min_gap_ms.size() == m * pow2(k),
    ensures
        k >= single::UNIT ==> (far_enough(sr, min_gap_ms, d) <==> d * 256000 >= (m * sr) * pow2(
            (k - single::UNIT) as nat,
        )),
        k < single::UNIT ==> (far_enough(sr, min_gap_ms, d) <==> d * (256000 * pow2(
            (single::UNIT - k) as nat,
        )) >= m * sr),
{
    let unit: nat = pow2(single::UNIT as nat);
    lemma_pow2_pos(single::UNIT as nat);
    lemma_pow2_pos(k);
    assert(d * HOP * 1000 * unit == (d * 256000) * unit) by (nonlinear_arith)
        requires
            HOP == 256,
    ;
    if k >= single::UNIT {
        let s: nat = (k - single::UNIT) as nat;
        lemma_pow2_adds(s, single::UNIT as nat);
        assert((m * pow2(k)) * sr == ((m * sr) * pow2(s)) * unit) by (nonlinear_arith)
            requires
                pow2(k) == pow2(s) * unit,
        ;
        assert((d * 256000) * unit >= ((m * sr) * pow2(s)) * unit <==> d * 256000 >= (m * sr) * pow2(s))
            by (nonlinear_arith)
            requires
                unit > 0,
        ;
    } else {
        let s: nat = (single::UNIT - k) as nat;
        lemma_pow2_adds(s, k);
        assert((m * pow2(k)) * sr == (m * sr) * pow2(k)) by (nonlinear_arith);
        assert((d * 256000) * unit == (d * (256000 * pow2(s))) * pow2(k)) by (nonlinear_arith)
            requires
                unit == pow2(s) * pow2(k),
        ;
        assert((d * (256000 * pow2(s))) * pow2(k) >= (m * sr) * pow2(k) <==> d * (256000 * pow2(s)) >= m * sr)
            by (nonlinear_arith)
            requires
                pow2(k) > 0,
        ;
    }
}

/// The number of hops from which on attacks are far enough apart, as far as a
/// file can have hops.
fn needed_hops(sr: u32, min_gap_ms: Single) -> (r: u64)
    ensures
        forall|d: int|
            0 <= d <= i64::MAX ==> (#[trigger] far_enough(sr, min_gap_ms, d) <==> d >= r),
{
    if sr == 0 || min_gap_ms.is_nan() || min_gap_ms.is_negative() {
        return 1;
    }
    if !min_gap_ms.is_finite() {
        return u64::MAX;
    }
    proof {
        lemma2_to64();
        lemma2_to64_rest();
    }
    let (m, k): (u64, u32) = rounding::split(single::DIGITS, min_gap_ms.bits as u64);
    let shift: u32 = single::UNIT;
    assert(m * sr < 0x100_0000_0000_0000) by (nonlinear_arith)
        requires
            m < 0x100_0000,
            sr < 0x1_0000_0000,
    ;
    let n: u64 = m * sr as u64;
    if k >= shift {
        let up: u32 = k - shift;
        if up >= 59 {
            proof {
                lemma_pow2_strictly_increases(58, up as nat);
                assert(n * pow2(up as nat) > 0x7fff_ffff_ffff_ffff * 256000) by (nonlinear_arith)
                    requires
                        m >= 0x80_0000,
                        sr >= 1,
                        n == m * sr,
                        pow2(up as nat) > 0x400_0000_0000_0000,
                ;
                assert forall|d: int| 0 <= d <= i64::MAX implies (#[trigger] far_enough(sr, min_gap_ms, d)
                    <==> d >= u64::MAX) by {
                    if d >= 1 {
                        lemma_gap(sr, min_gap_ms, m as nat, k as nat, d);
                    }
                }
            }
            return u64::MAX;
        }
        let factor: u128 = rounding::power(up);
        proof {
            if up < 58 {
                lemma_pow2_strictly_increases(up as nat, 58);
            }
            assert(n * factor <= 0x100_0000_0000_0000 * 0x400_0000_0000_0000) by (nonlinear_arith)
                requires
                    n < 0x100_0000_0000_0000,
                    factor <= 0x400_0000_0000_0000,
            ;
        }
        let wanted: u128 = n as u128 * factor;
        let hops: u128 = (wanted + 255999) / 256000;
        let gap: u64 = if hops < 1 {
            1
        } else if hops > i64::MAX as u128 {
            u64::MAX
        } else {
            hops as u64
        };
        proof {
            lemma_rounded_up(wanted as int, 256000, hops as int);
            assert forall|d: int| 0 <= d <= i64::MAX implies (#[trigger] far_enough(sr, min_gap_ms, d) <==> d
                >= gap) by {
                if d >= 1 {
                    lemma_gap(sr, min_gap_ms, m as nat, k as nat, d);
                    assert(d * 256000 >= wanted <==> d >= hops);
                }
            }
        }
        gap
    } else {
        let down: u32 = shift - k;
        if down >= 64 {
            proof {
                lemma_pow2_strictly_increases(63, down as nat);
                assert forall|d: int| 0 <= d <= i64::MAX implies (#[trigger] far_enough(sr, min_gap_ms, d)
                    <==> d >= 1) by {
                    if d >= 1 {
                        lemma_gap(sr, min_gap_ms, m as nat, k as nat, d);
                        assert(d * (256000 * pow2(down as nat)) >= n) by (nonlinear_arith)
                            requires
                                d >= 1,
                                pow2(down as nat) > n,
                        ;
                    }
                }
            }
            return 1;
        }
        let part: u128 = rounding::power(down);
        proof {
            lemma_pow2_strictly_increases(down as nat, 64);
        }
        let den: u128 = 256000 * part;
        let hops: u128 = (n as u128 + (den - 1)) / den;
        proof {
            lemma_rounded_up(n as int, den as int, hops as int);
            assert(1 * den >= 1);
            assert(hops <= n) by {
                assert((n as int) * (den as int) >= n) by (nonlinear_arith)
                    requires
                        den >= 1,
                ;
            }
        }
        let gap: u64 = if hops < 1 {
            1
        } else {
            hops as u64
        };
        proof {
            assert forall|d: int| 0 <= d <= i64::MAX implies (#[trigger] far_enough(sr, min_gap_ms, d) <==> d
                >= gap) by {
                if d >= 1 {
                    lemma_gap(sr, min_gap_ms, m as nat, k as nat, d);
                    assert(d * (den as int) >= n <==> d >= hops);
                }
            }
        }
        gap
    }
}

/// Finds where the sounds of a file start. It tracks short-time energy and
/// marks a rising local peak that jumps above the recent average.
pub fn detect_onsets(mono: &Vec<Single>, sr: u32, threshold: Single, min_gap_ms: Single) -> (r: Vec<u64>)
    ensures
        r@ == onsets_of(mono@, sr, threshold, min_gap_ms),
{
    let env: Vec<Single> = measure_all(mono);
    let gap: u64 = needed_hops(sr, min_gap_ms);
    let mut onsets: Vec<u64> = vec![0];
    let mut last: Option<usize> = None;
    let mut i: usize = 1;
    assert(onsets@ =~= seq![0u64]);
    let total: usize = mono.len();
    while i < env.len()
        invariant
            1 <= i,
            i <= env@.len() || i == 1,
            total == mono@.len(),
            env@.len() * HOP <= total,
            forall|d: int|
                0 <= d <= i64::MAX ==> (#[trigger] far_enough(sr, min_gap_ms, d) <==> d >= gap),
            hits(env@, sr, threshold, min_gap_ms, i as int) == (Hits {
                onsets: onsets@,
                last: match last {
                    Some(l) => Some(l as int),
                    None => None,
                },
            }),
            match last {
                Some(l) => l < i,
                None => true,
            },
        decreases env@.len() - i,
    {
        let far: bool = match last {
            None => true,
            Some(l) => (i - l) as u64 >= gap,
        };
        let found: bool = is_attack(&env, threshold, i);
        if found && far {
            onsets.push((i * HOP) as u64);
            last = Some(i);
        }
        i = i + 1;
        assert(hits(env@, sr, threshold, min_gap_ms, i as int) =~= (Hits {
            onsets: onsets@,
            last: match last {
                Some(l) => Some(l as int),
                None => None,
            },
        }));
    }
    assert(hits(env@, sr, threshold, min_gap_ms, i as int).onsets == hits(
        env@,
        sr,
        threshold,
        min_gap_ms,
        env@.len() as int,
    ).onsets);
    onsets
}

/// The name of the `i`th slice.
pub open spec fn slice_id(i: int) -> Seq<char> {
    "slice_"@ + text::two_digits(i as nat)
}

/// The quotient of two whole numbers, in double precision.
pub open spec fn divided(a: int, b: int) -> Double {
    Double::of_int(a).quotient(Double::of_int(b))
}

/// The lines per beat that a grid gets.
pub open spec fn lines(opts: SliceOpts) -> u32 {
    if opts.lines_per_beat < 1 {
        1
    } else {
        opts.lines_per_beat
    }
}

/// Samples to the row: those of the wanted tempo, or the mean length of a
/// slice; at least one.
pub open spec fn row_length(n: u64, count: int, sr: u32, opts: SliceOpts) -> u64 {
    let wanted = if opts.bpm is Some && (Single { bits: 0 }).less(opts.bpm->0) {
        Double::of_int(sr as int).product(Double::of_int(60)).quotient(
            Double::of_single(opts.bpm->0).product(Double::of_int(lines(opts) as int)),
        )
    } else {
        divided(n as int, count)
    };
    if wanted.nearest() < 1 {
        1
    } else {
        wanted.nearest() as u64
    }
}

/// A number kept to 32 bits.
pub open spec fn in_32_bits(n: nat) -> u32 {
    if n > u32::MAX {
        u32::MAX
    } else {
        n as u32
    }
}

/// Rows that the whole file takes.
pub open spec fn rows_needed(n: u64, row: u64) -> u32 {
    in_32_bits(divided(n as int, row as int).ceiling())
}

/// The row of the `i`th slice: one after the other for equal cuts, else the
/// row nearest to its start.
pub open spec fn slice_row(ranges: Seq<(u64, u64)>, n: u64, row: u64, transient: bool, i: int) -> u32 {
    let nearest = in_32_bits(divided(ranges[i].0 as int, row as int).nearest());
    let last = if rows_needed(n, row) == 0 { 0 } else { (rows_needed(n, row) - 1) as u32 };
    if !transient {
        i as u32
    } else if nearest <= last {
        nearest
    } else {
        last
    }
}

/// How many rows the `i`th slice sounds: at least one.
pub open spec fn slice_rows(ranges: Seq<(u64, u64)>, row: u64, i: int) -> Single {
    Single::of_int(divided(ranges[i].1 - ranges[i].0, row as int).nearest() as int).larger(
        Single { bits: single::ONE },
    )
}

/// The track of the `i`th slice.
pub open spec fn slice_track(ranges: Seq<(u64, u64)>, n: u64, row: u64, transient: bool, i: int) -> TrackModel {
    TrackModel {
        name: "slice "@ + text::two_digits(i as nat),
        instrument: None,
        voice: Some(slice_id(i)),
        default_amp: Some(Single::of_ratio(9, 10)),
        default_pan: Some(Single { bits: 0 }),
        default_envelope: Some(Envelope::Gate),
        default_fx: Some(Seq::empty()),
        default_duration_rows: Some(slice_rows(ranges, row, i)),
        default_pitch_env: None,
        cells: seq![
            CellModel {
                row: slice_row(ranges, n, row, transient, i),
                note: NoteModel::Hz(Single { bits: single::ONE }),
                pitch_ratio: Some(Single { bits: single::ONE }),
                velocity: None,
                duration_rows: None,
                pan: None,
                fx: Seq::empty(),
                pitch_env: None,
            },
        ],
    }
}

/// The voices of the first `k` slices.
pub open spec fn slice_voices(k: int) -> Map<Seq<char>, VoiceModel>
    decreases k,
{
    if k <= 0 {
        Map::empty()
    } else {
        slice_voices(k - 1).insert(
            slice_id(k - 1),
            VoiceModel::Sample { sample_id: slice_id(k - 1), loop_mode: SampleLoopMode::OneShot },
        )
    }
}

/// The samples of the first `k` slices of a file.
pub open spec fn slice_samples(ranges: Seq<(u64, u64)>, path: Seq<char>, k: int) -> Map<Seq<char>, SampleModel>
    decreases k,
{
    if k <= 0 {
        Map::empty()
    } else {
        slice_samples(ranges, path, k - 1).insert(
            slice_id(k - 1),
            SampleModel {
                path,
                start_sample: ranges[k - 1].0,
                end_sample: ranges[k - 1].1,
                label: Some(slice_id(k - 1)),
            },
        )
    }
}

/// The last row of the first `k` slices.
pub open spec fn last_row(ranges: Seq<(u64, u64)>, n: u64, row: u64, transient: bool, k: int) -> u32
    decreases k,
{
    if k <= 0 {
        0
    } else {
        let here = slice_row(ranges, n, row, transient, k - 1);
        let before = last_row(ranges, n, row, transient, k - 1);
        if here > before {
            here
        } else {
            before
        }
    }
}

/// The rows of the pattern of all slices.
pub open spec fn total_rows(ranges: Seq<(u64, u64)>, n: u64, row: u64, transient: bool) -> u32 {
    let last = last_row(ranges, n, row, transient, ranges.len() as int);
    if last + 1 > rows_needed(n, row) {
        (last + 1) as u32
    } else {
        rows_needed(n, row)
    }
}

/// The pattern of slices of a file of `n` samples, at a rate.
pub open spec fn slice_pattern(
    ranges: Seq<(u64, u64)>,
    n: u64,
    sr: u32,
    opts: SliceOpts,
    path: Seq<char>,
    stem: Option<Seq<char>>,
) -> PatternModel {
    let row = row_length(n, ranges.len() as int, sr, opts);
    PatternModel {
        sample_rate: sr,
        tempo_bpm: Double::of_int(sr as int).product(Double::of_int(60)).quotient(
            Double::of_int(row as int).product(Double::of_int(lines(opts) as int)),
        ).as_single(),
        lines_per_beat: lines(opts),
        rows: total_rows(ranges, n, row, opts.transient),
        voices: slice_voices(ranges.len() as int),
        samples: slice_samples(ranges, path, ranges.len() as int),
        tracks: Seq::new(
            ranges.len(),
            |i: int| slice_track(ranges, n, row, opts.transient, i),
        ),
        metadata: PatternNotes {
            title: match stem {
                Some(s) => Some(s + " (sliced)"@),
                None => None,
            },
            author: Some("rtracker slice"@),
        },
    }
}

/// The slices of a file.
pub open spec fn ranges_for(mono: Seq<Single>, native_sr: u32, opts: SliceOpts) -> Seq<(u64, u64)> {
    if opts.transient {
        onset_ranges(
            onsets_of(mono, native_sr, opts.threshold, opts.min_gap_ms),
            mono.len() as u64,
        )
    } else {
        equal_ranges(mono.len() as u64, if opts.slices < 1 { 1 } else { opts.slices })
    }
}

/// The pattern of a file's slices.
pub open spec fn sliced(
    mono: Seq<Single>,
    native_sr: u32,
    opts: SliceOpts,
    path: Seq<char>,
    stem: Option<Seq<char>>,
) -> PatternModel {
    slice_pattern(
        ranges_for(mono, native_sr, opts),
        mono.len() as u64,
        match opts.sample_rate {
            Some(sr) => sr,
            None => native_sr,
        },
        opts,
        path,
        stem,
    )
}

fn id_for(i: usize) -> (r: String)
    ensures
        r@ == slice_id(i as int),
{
    let mut out: String = "slice_".to_owned();
    text::push_two_digits(&mut out, i as u64);
    out
}

fn ratio_of(a: u64, b: u64) -> (r: Double)
    ensures
        r == divided(a as int, b as int),
{
    Double::from_natural(a).over(Double::from_natural(b))
}

fn keep_32_bits(n: u64) -> (r: u32)
    ensures
        r == in_32_bits(n as nat),
{
    if n > u32::MAX as u64 {
        u32::MAX
    } else {
        n as u32
    }
}

fn make_track(i: usize, row: u32, dur_rows: Single) -> (r: Track)
    ensures
        forall|ranges: Seq<(u64, u64)>, n: u64, length: u64, transient: bool|
            row == slice_row(ranges, n, length, transient, i as int) && dur_rows == slice_rows(
                ranges,
                length,
                i as int,
            ) ==> r@ == #[trigger] slice_track(ranges, n, length, transient, i as int),
        r@.cells.len() == 1,
        r@.cells[0].row == row,
{
    let mut name: String = "slice ".to_owned();
    text::push_two_digits(&mut name, i as u64);
    let one: Single = Single::of_bits(single::ONE);
    let no_fx: Vec<FxNode> = Vec::new();
    let cell: Cell = Cell {
        row,
        note: Note::Hz(one),
        pitch_ratio: Some(one),
        velocity: None,
        duration_rows: None,
        pan: None,
        fx: no_fx,
        pitch_env: None,
    };
    let fx: Vec<FxNode> = Vec::new();
    let r = Track {
        name,
        instrument: None,
        voice: Some(id_for(i)),
        default_amp: Some(Single::ratio(9, 10)),
        default_pan: Some(Single::of_bits(0)),
        default_envelope: Some(Envelope::Gate),
        default_fx: Some(fx),
        default_duration_rows: Some(dur_rows),
        default_pitch_env: None,
        cells: vec![cell],
    };
    proof {
        assert forall|ranges: Seq<(u64, u64)>, n: u64, length: u64, transient: bool|
            row == slice_row(ranges, n, length, transient, i as int) && dur_rows == slice_rows(
                ranges,
                length,
                i as int,
            ) implies r@ == #[trigger] slice_track(ranges, n, length, transient, i as int) by {
            let t: TrackModel = slice_track(ranges, n, length, transient, i as int);
            assert(r@.cells[0].fx =~= Seq::<FxNode>::empty());
            assert(r@.cells =~= t.cells);
            assert(r@.default_fx->0 =~= Seq::<FxNode>::empty());
        }
    }
    r
}

/// Makes the pattern of slices.
pub fn pattern_of(
    bounds: &Vec<(u64, u64)>,
    n: u64,
    sr: u32,
    opts: &SliceOpts,
    path: &String,
    stem: &Option<String>,
) -> (r: Pattern)
    requires
        !opts.transient ==> bounds@.len() <= u32::MAX,
        forall|i: int| 0 <= i < bounds@.len() ==> (#[trigger] bounds@[i]).0 <= bounds@[i].1,
    ensures
        r@ == slice_pattern(bounds@, n, sr, *opts, path@, table::text(*stem)),
{
    let lpb: u32 = if opts.lines_per_beat < 1 {
        1
    } else {
        opts.lines_per_beat
    };
    let rate: Double = Double::from_natural(sr as u64).times(Double::from_natural(60));
    let beats: Double = Double::from_natural(lpb as u64);
    let wanted: Double = match opts.bpm {
        Some(bpm) => if Single::of_bits(0).is_less(bpm) {
            rate.over(Double::from_single(bpm).times(beats))
        } else {
            ratio_of(n, bounds.len() as u64)
        },
        None => ratio_of(n, bounds.len() as u64),
    };
    let nearest: u64 = wanted.to_nearest();
    let length: u64 = if nearest < 1 {
        1
    } else {
        nearest
    };
    assert(length == row_length(n, bounds@.len() as int, sr, *opts));
    let bpm: Single = rate.over(Double::from_natural(length).times(beats)).to_single();
    let needed: u32 = keep_32_bits(ratio_of(n, length).to_ceiling());
    let mut voices: Table<VoiceDef> = Table::new();
    let mut samples: Table<SampleRef> = Table::new();
    let mut tracks: Vec<Track> = Vec::new();
    let mut max_row: u32 = 0;
    let mut i: usize = 0;
    assert(pattern::track_views(tracks@) =~= Seq::<TrackModel>::empty());
    while i < bounds.len()
        invariant
            i <= bounds@.len(),
            !opts.transient ==> bounds@.len() <= u32::MAX,
            forall|k: int| 0 <= k < bounds@.len() ==> (#[trigger] bounds@[k]).0 <= bounds@[k].1,
            needed == rows_needed(n, length),
            voices@ == slice_voices(i as int),
            samples@ == slice_samples(bounds@, path@, i as int),
            max_row == last_row(bounds@, n, length, opts.transient, i as int),
            opts.transient ==> max_row <= if needed == 0 {
                0
            } else {
                (needed - 1) as u32
            },
            !opts.transient ==> max_row <= i && (i > 0 ==> max_row < i),
            pattern::track_views(tracks@) == Seq::new(
                i as nat,
                |k: int| slice_track(bounds@, n, length, opts.transient, k),
            ),
        decreases bounds.len() - i,
    {
        let (start, end) = bounds[i];
        assert(bounds@[i as int] == (start, end));
        let id: String = id_for(i);
        voices.insert(
            id.clone(),
            VoiceDef::Sample { sample_id: id.clone(), loop_mode: SampleLoopMode::OneShot },
        );
        samples.insert(
            id.clone(),
            SampleRef {
                path: path.clone(),
                start_sample: start,
                end_sample: end,
                label: Some(id.clone()),
            },
        );
        let row: u32 = if opts.transient {
            let at: u32 = keep_32_bits(ratio_of(start, length).to_nearest());
            let last: u32 = if needed == 0 {
                0
            } else {
                needed - 1
            };
            if at <= last {
                at
            } else {
                last
            }
        } else {
            i as u32
        };
        assert(row == slice_row(bounds@, n, length, opts.transient, i as int));
        if row > max_row {
            max_row = row;
        }
        let dur_rows: Single = Single::from_natural(ratio_of(end - start, length).to_nearest()).max(
            Single::of_bits(single::ONE),
        );
        let ghost before = tracks@;
        let track: Track = make_track(i, row, dur_rows);
        tracks.push(track);
        i = i + 1;
        assert(pattern::track_views(tracks@) =~= pattern::track_views(before).push(track@));
        assert(track@ == slice_track(bounds@, n, length, opts.transient, i - 1));
        assert(pattern::track_views(tracks@) =~= Seq::new(
            i as nat,
            |k: int| slice_track(bounds@, n, length, opts.transient, k),
        ));
    }
    let rows: u32 = if max_row + 1 > needed {
        max_row + 1
    } else {
        needed
    };
    let title: Option<String> = match stem {
        Some(s) => {
            let mut t: String = s.clone();
            t.append(" (sliced)");
            Some(t)
        },
        None => None,
    };
    let made: Pattern = Pattern {
        sample_rate: sr,
        tempo_bpm: bpm,
        lines_per_beat: lpb,
        rows,
        voices,
        samples,
        tracks,
        metadata: PatternMetadata { title, author: Some("rtracker slice".to_owned()) },
    };
    assert(made@ =~= slice_pattern(bounds@, n, sr, *opts, path@, table::text(*stem)));
    made
}

/// Slices the bytes of a WAV file. `path` is where the pattern will find the
/// file, and `stem` its name.
pub fn slice_to_pattern(bytes: &Vec<u8>, path: &String, stem: &Option<String>, opts: &SliceOpts) -> (r: Result<
    Pattern,
    SliceError,
>)
    ensures
        match wav::wav_mono(bytes@) {
            None => r matches Err(SliceError::Decode(DecodeError::Hound(_))),
            Some(Err(bits)) => r matches Err(SliceError::Decode(DecodeError::Unsupported(e))) && e == bits,
            Some(Ok((mono, native_sr))) => mono.len() <= u32::MAX && if mono.len() == 0 {
                r == Err::<Pattern, SliceError>(SliceError::Empty)
            } else {
                let made = sliced(mono, native_sr, *opts, path@, table::text(*stem));
                match r {
                    Ok(p) => p@ == made && made.draft(1) is Ok && made.draft(1)->Ok_0.valid(),
                    Err(SliceError::Compile(e)) => compile::settles(
                        made.draft(1),
                        Err::<PieceModel, PatternFault>(e@),
                    ),
                    _ => false,
                }
            },
        },
{
    let (mono, native_sr) = match decode_wav_mono(bytes) {
        Ok(found) => found,
        Err(e) => {
            return Err(SliceError::Decode(e));
        },
    };
    if mono.len() == 0 {
        return Err(SliceError::Empty);
    }
    let n: u64 = mono.len() as u64;
    let sr: u32 = match opts.sample_rate {
        Some(rate) => rate,
        None => native_sr,
    };
    let bounds: Vec<(u64, u64)> = if opts.transient {
        proof {
            law_onsets_rise(mono@, native_sr, opts.threshold, opts.min_gap_ms);
            law_onset_ranges_cover(
                onsets_of(mono@, native_sr, opts.threshold, opts.min_gap_ms),
                n,
            );
        }
        let onsets: Vec<u64> = detect_onsets(&mono, native_sr, opts.threshold, opts.min_gap_ms);
        bounds_from_onsets(&onsets, n)
    } else {
        let slices: u32 = if opts.slices < 1 {
            1
        } else {
            opts.slices
        };
        proof {
            law_equal_ranges_cover(n, slices);
        }
        equal_bounds(n, slices)
    };
    let made: Pattern = pattern_of(&bounds, n, sr, opts, path, stem);
    match made.compile() {
        Ok(_) => Ok(made),
        Err(e) => Err(SliceError::Compile(e)),
    }
}

/// The slices of a file that is not empty abut and cover the whole of it,
/// however it is cut.
pub proof fn law_slices_cover(mono: Seq<Single>, native_sr: u32, opts: SliceOpts)
    requires
        0 < mono.len() <= u64::MAX,
    ensures
        covers(ranges_for(mono, native_sr, opts), mono.len() as u64),
{
    if opts.transient {
        law_onsets_rise(mono, native_sr, opts.threshold, opts.min_gap_ms);
        law_onset_ranges_cover(
            onsets_of(mono, native_sr, opts.threshold, opts.min_gap_ms),
            mono.len() as u64,
        );
    } else {
        law_equal_ranges_cover(mono.len() as u64, if opts.slices < 1 { 1 } else { opts.slices });
    }
}

} // verus!
