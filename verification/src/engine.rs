//! What the audio callback plays: the loop, and a one-shot preview on top.

use vstd::prelude::*;

use crate::single;
use crate::single::Single;

verus! {

/// Where the loop and the preview stand, in samples of their interleaved
/// stereo buffers. The preview is over when it stands at the end of its
/// buffer.
#[derive(Clone, Copy, Debug, PartialEq, Eq, Structural)]
pub struct Heads {
    pub play: u64,
    pub preview: u64,
}

/// Where playing starts: within the buffer, at the start of a frame.
pub open spec fn first_head(play: u64, len: int) -> int {
    let head = play as int % len;
    head - head % 2
}

/// The loop's head after `f` frames.
pub open spec fn head_after(start: int, len: int, f: int) -> int
    decreases f,
{
    if f <= 0 {
        start
    } else {
        let head = head_after(start, len, f - 1);
        if head + 2 >= len {
            0
        } else {
            head + 2
        }
    }
}

/// The preview's head after `f` frames.
pub open spec fn preview_after(start: int, len: int, f: int) -> int
    decreases f,
{
    if f <= 0 {
        start
    } else {
        let head = preview_after(start, len, f - 1);
        if head + 1 < len {
            head + 2
        } else {
            head
        }
    }
}

/// A value with the preview on top, at 0.7 so that it doesn't bury the loop,
/// and kept to [-1, 1].
pub open spec fn overlaid(x: Single, over: Single) -> Single {
    x.sum(over.product(Single::of_ratio(7, 10))).clamped(
        Single { bits: single::MINUS_ONE },
        Single { bits: single::ONE },
    )
}

/// What channel `c` plays in a frame, with the heads at `head` and `pv`: left
/// and right in the first two channels, nothing in any other.
pub open spec fn channel_value(src: Seq<Single>, preview: Seq<Single>, head: int, pv: int, c: int) -> Single {
    if c >= 2 {
        Single { bits: 0 }
    } else if pv + 1 < preview.len() {
        overlaid(src[head + c], preview[pv + c])
    } else {
        src[head + c]
    }
}

/// Whether nothing is to be heard.
pub open spec fn mute(paused: bool, src: Seq<Single>) -> bool {
    paused || src.len() < 2
}

/// How many frames, the last perhaps cut short, `n` values of some channels
/// make.
pub open spec fn frames(n: int, channels: int) -> int {
    (n + channels - 1) / channels
}

/// The `i`th value of an output buffer.
pub open spec fn played(
    heads: Heads,
    paused: bool,
    src: Seq<Single>,
    preview: Seq<Single>,
    channels: int,
    i: int,
) -> Single {
    if mute(paused, src) {
        Single { bits: 0 }
    } else {
        channel_value(
            src,
            preview,
            head_after(first_head(heads.play, src.len() as int), src.len() as int, i / channels),
            preview_after(heads.preview as int, preview.len() as int, i / channels),
            i % channels,
        )
    }
}

/// Where the heads stand after an output buffer of `n` values.
pub open spec fn heads_after(
    heads: Heads,
    paused: bool,
    src: Seq<Single>,
    preview: Seq<Single>,
    channels: int,
    n: int,
) -> Heads {
    if mute(paused, src) {
        heads
    } else {
        let f = frames(n, channels);
        let pv = preview_after(heads.preview as int, preview.len() as int, f);
        Heads {
            play: head_after(first_head(heads.play, src.len() as int), src.len() as int, f) as u64,
            preview: if pv <= preview.len() {
                pv as u64
            } else {
                preview.len() as u64
            },
        }
    }
}

pub proof fn lemma_first_head(play: u64, len: int)
    requires
        len >= 2,
    ensures
        0 <= first_head(play, len) < len,
        first_head(play, len) % 2 == 0,
{
    vstd::arithmetic::div_mod::lemma_mod_bound(play as int, len);
}

proof fn lemma_head(start: int, len: int, f: int)
    requires
        len >= 2,
        len % 2 == 0,
        0 <= start < len,
        start % 2 == 0,
    ensures
        0 <= head_after(start, len, f) <= len - 2,
        head_after(start, len, f) % 2 == 0,
    decreases f,
{
    if f > 0 {
        lemma_head(start, len, f - 1);
    }
}

/// The loop's head always stands at the start of a whole frame of the buffer.
pub proof fn law_head_stays_in_loop(play: u64, len: int, f: int)
    requires
        len >= 2,
        len % 2 == 0,
    ensures
        0 <= head_after(first_head(play, len), len, f) <= len - 2,
        head_after(first_head(play, len), len, f) % 2 == 0,
{
    lemma_first_head(play, len);
    lemma_head(first_head(play, len), len, f);
}

/// The loop comes round: after as many frames as it has, its head is back
/// where it was.
pub proof fn law_loop_comes_round(start: int, len: int)
    requires
        len >= 2,
        len % 2 == 0,
        0 <= start < len,
        start % 2 == 0,
    ensures
        head_after(start, len, len / 2) == start,
{
    lemma_head_is_modular(start, len, len / 2);
    vstd::arithmetic::div_mod::lemma_mod_add_multiples_vanish(start, len);
    vstd::arithmetic::div_mod::lemma_small_mod(start as nat, len as nat);
    assert(start + 2 * (len / 2) == len + start);
}

pub proof fn lemma_head_is_modular(start: int, len: int, f: int)
    requires
        len >= 2,
        len % 2 == 0,
        0 <= start < len,
        start % 2 == 0,
        f >= 0,
    ensures
        head_after(start, len, f) == (start + 2 * f) % len,
    decreases f,
{
    if f == 0 {
        vstd::arithmetic::div_mod::lemma_small_mod(start as nat, len as nat);
    } else {
        lemma_head_is_modular(start, len, f - 1);
        lemma_head(start, len, f - 1);
        let x: int = start + 2 * (f - 1);
        let r: int = x % len;
        let q: int = x / len;
        vstd::arithmetic::div_mod::lemma_fundamental_div_mod(x, len);
        if r + 2 >= len {
            assert(r == len - 2);
            assert(len * q + len == len * (q + 1)) by (nonlinear_arith);
            vstd::arithmetic::div_mod::lemma_fundamental_div_mod_converse(x + 2, len, q + 1, 0);
        } else {
            vstd::arithmetic::div_mod::lemma_fundamental_div_mod_converse(x + 2, len, q, r + 2);
        }
    }
}

/// A preview plays once: its head only moves forward, and one that has come
/// to the end stays there.
pub proof fn law_preview_plays_once(start: int, len: int, f: int)
    requires
        0 <= start,
        0 <= f,
    ensures
        start <= preview_after(start, len, f) <= start + 2 * f,
        start + 1 >= len ==> preview_after(start, len, f) == start,
        preview_after(start, len, f) + 1 < len ==> preview_after(start, len, f) == start + 2 * f,
    decreases f,
{
    if f > 0 {
        law_preview_plays_once(start, len, f - 1);
    }
}

fn overlay(x: Single, over: Single) -> (r: Single)
    ensures
        r == overlaid(x, over),
{
    x.plus(over.times(Single::ratio(7, 10))).clamp(
        Single::of_bits(single::MINUS_ONE),
        Single::of_bits(single::ONE),
    )
}

proof fn lemma_place(f: int, c: int, channels: int)
    requires
        channels > 0,
        0 <= c < channels,
    ensures
        (f * channels + c) / channels == f,
        (f * channels + c) % channels == c,
{
    vstd::arithmetic::div_mod::lemma_fundamental_div_mod_converse(f * channels + c, channels, f, c);
}

/// Fills an output buffer of interleaved channels and moves the heads.
pub fn fill(
    out: &mut Vec<Single>,
    channels: usize,
    src: &Vec<Single>,
    preview: &Vec<Single>,
    heads: &mut Heads,
    paused: bool,
)
    requires
        channels > 0,
        src@.len() % 2 == 0,
    ensures
        final(out)@ == Seq::new(
            old(out)@.len(),
            |i: int| played(*old(heads), paused, src@, preview@, channels as int, i),
        ),
        *final(heads) == heads_after(
            *old(heads),
            paused,
            src@,
            preview@,
            channels as int,
            old(out)@.len() as int,
        ),
{
    let ghost before = *heads;
    let n: usize = out.len();
    let zero: Single = Single::of_bits(0);
    let len: usize = src.len();
    if paused || len < 2 {
        let mut i: usize = 0;
        while i < n
            invariant
                i <= n,
                out@.len() == n,
                zero.bits == 0,
                forall|k: int| 0 <= k < i ==> (#[trigger] out@[k]).bits == 0,
            decreases n - i,
        {
            out.set(i, zero);
            i = i + 1;
        }
        assert(out@ =~= Seq::new(
            n as nat,
            |i: int| played(before, paused, src@, preview@, channels as int, i),
        ));
        return;
    }
    let pv_len: usize = preview.len();
    let ghost start = first_head(before.play, len as int);
    proof {
        lemma_first_head(before.play, len as int);
    }
    let mut head: usize = (heads.play % len as u64) as usize;
    head = head - head % 2;
    let mut pv: u64 = heads.preview;
    let mut at: usize = 0;
    let mut f: usize = 0;
    assert(0 * channels == 0) by (nonlinear_arith);
    proof {
        if n == 0 {
            assert((channels - 1) / channels as int == 0) by {
                vstd::arithmetic::div_mod::lemma_basic_div(channels - 1, channels as int);
            }
        }
    }
    while at < n
        invariant
            at <= n,
            out@.len() == n,
            zero.bits == 0,
            channels > 0,
            len == src@.len(),
            len >= 2,
            len % 2 == 0,
            pv_len == preview@.len(),
            !paused,
            before == *old(heads),
            *heads == before,
            start == first_head(before.play, len as int),
            0 <= start < len,
            start % 2 == 0,
            f <= at,
            at == if f * channels <= n {
                f * channels
            } else {
                n as int
            },
            at < n ==> at == f * channels,
            at == n ==> f == frames(n as int, channels as int),
            head == head_after(start, len as int, f as int),
            pv == preview_after(before.preview as int, pv_len as int, f as int),
            pv <= before.preview || pv <= pv_len + 1,
            forall|k: int|
                0 <= k < at ==> #[trigger] out@[k] == played(
                    before,
                    paused,
                    src@,
                    preview@,
                    channels as int,
                    k,
                ),
        decreases n - at,
    {
        proof {
            lemma_head(start, len as int, f as int);
        }
        let mut l: Single = src[head];
        let mut r: Single = src[head + 1];
        let over: bool = pv < pv_len as u64 && pv_len as u64 - pv > 1;
        if over {
            let p: usize = pv as usize;
            l = overlay(l, preview[p]);
            r = overlay(r, preview[p + 1]);
        }
        assert(l == channel_value(src@, preview@, head as int, pv as int, 0));
        assert(r == channel_value(src@, preview@, head as int, pv as int, 1));
        let width: usize = if n - at < channels {
            n - at
        } else {
            channels
        };
        let mut c: usize = 0;
        while c < width
            invariant
                c <= width <= channels,
                at + width <= n,
                at == f * channels,
                out@.len() == n,
                zero.bits == 0,
                !paused,
                len == src@.len(),
                len >= 2,
                pv_len == preview@.len(),
                start == first_head(before.play, len as int),
                head == head_after(start, len as int, f as int),
                pv == preview_after(before.preview as int, pv_len as int, f as int),
                l == channel_value(src@, preview@, head as int, pv as int, 0),
                r == channel_value(src@, preview@, head as int, pv as int, 1),
                forall|k: int|
                    0 <= k < at + c ==> #[trigger] out@[k] == played(
                        before,
                        paused,
                        src@,
                        preview@,
                        channels as int,
                        k,
                    ),
            decreases width - c,
        {
            let x: Single = if c == 0 {
                l
            } else if c == 1 {
                r
            } else {
                zero
            };
            proof {
                lemma_place(f as int, c as int, channels as int);
            }
            out.set(at + c, x);
            c = c + 1;
        }
        if over {
            pv = pv + 2;
        }
        head = if len - head <= 2 {
            0
        } else {
            head + 2
        };
        proof {
            assert((f + 1) * channels == f * channels + channels) by (nonlinear_arith);
            if n - at <= channels {
                // the last frame
                let short: int = n - at;
                assert(n + channels - 1 == (f + 1) * channels + (short - 1));
                assert((n + channels - 1) / channels as int == f + 1) by {
                    lemma_place(f + 1, short - 1, channels as int);
                }
            }
        }
        at = at + width;
        f = f + 1;
    }
    heads.play = head as u64;
    heads.preview = if pv <= pv_len as u64 {
        pv
    } else {
        pv_len as u64
    };
    assert(out@ =~= Seq::new(
        n as nat,
        |i: int| played(before, paused, src@, preview@, channels as int, i),
    ));
}

/// The value that 16 unsigned bits hold: silence in the middle.
pub open spec fn unsigned(s: Single) -> nat {
    s.clamped(Single { bits: single::MINUS_ONE }, Single { bits: single::ONE }).product(
        Single::of_ratio(1, 2),
    ).sum(Single::of_ratio(1, 2)).product(Single::of_int(65535)).truncated(65535)
}

/// The value that 16 unsigned bits hold.
pub fn to_unsigned(s: Single) -> (r: u16)
    ensures
        r == unsigned(s),
{
    let half: Single = Single::ratio(1, 2);
    let x: Single = s.clamp(Single::of_bits(single::MINUS_ONE), Single::of_bits(single::ONE)).times(
        half,
    ).plus(half).times(Single::from_int(65535));
    let n: u64 = x.to_natural();
    if n > 65535 {
        65535
    } else {
        n as u16
    }
}

/// The frame that a playhead stands at, in samples of an interleaved stereo
/// buffer of `len` samples: no further than its end.
pub fn playhead_frame(play: u64, len: usize) -> (r: u64)
    ensures
        r == if play / 2 <= len / 2 {
            play as int / 2
        } else {
            len as int / 2
        },
{
    let frames: u64 = (len / 2) as u64;
    if play / 2 <= frames {
        play / 2
    } else {
        frames
    }
}

} // verus!
