use vstd::prelude::*;
use crate::align::{align_gif, align_speed, align_outcome, speed_aligned, speed_fits, lemma_speed_aligned, lemma_alignment_uniform, clamp_interval, to_interval};
use crate::frame::{Frame, FrameView, views, take_reversed, rev, lemma_views_push, delay_millis, get_delay_millis, same_size, uniform};
use crate::image_ops::{overlaid, overlay, transparent, zeros};
use crate::number::Decimal;
use crate::rng::Rng;

verus! {

/// Frames per wiggle cycle, for frames of `ms / 10` centiseconds at speed
/// `micros / ONE`: a cycle of 32 steps takes `64 * speed / 8` centiseconds.
/// Held within `[1, MAX_INTERVAL]`; one where it is undefined.
pub open spec fn wiggle_interval(ms: nat, micros: int) -> nat {
    if ms == 0 || micros <= 0 {
        1
    } else {
        clamp_interval(micros / (12500 * ms) as int)
    }
}

/// The phase of stripe `s` in frame `i`: how many eighths of a cycle frame
/// `i` is into its cycle, plus `s`, modulo eight.
pub open spec fn wiggle_phase(i: nat, s: nat, ms: nat, micros: int) -> nat {
    if ms == 0 || micros <= 0 {
        s % 8
    } else {
        (((100000 * i * ms) as int / micros) as nat + s) % 8
    }
}

/// The sideways step of each phase, in units of `shift_size`.
pub open spec fn phase_offset(phase: nat) -> int {
    if phase == 1 || phase == 3 {
        -1
    } else if phase == 2 {
        -2
    } else if phase == 5 || phase == 7 {
        1
    } else if phase == 6 {
        2
    } else {
        0
    }
}

/// Two percent of the width, rounded up, and at least one pixel.
pub open spec fn shift_size(w: nat) -> nat {
    if w == 0 { 1 } else { ((w + 49) / 50) as nat }
}

/// A 48th of the height, and at least one row.
pub open spec fn stripe_height(h: nat) -> nat {
    if h < 48 { 1 } else { h / 48 }
}

/// The `n` rows from row `y` on of a `w` pixel wide buffer.
pub open spec fn crop_rows(data: Seq<u8>, w: nat, y: nat, n: nat) -> Seq<u8> {
    data.subrange((y * w * 4) as int, ((y + n) * w * 4) as int)
}

/// The buffer of frame `i` after its first `k` stripes are drawn, each moved
/// sideways by its phase, onto a transparent buffer.
pub open spec fn wiggled(data: Seq<u8>, w: nat, h: nat, i: nat, ms: nat, micros: int, k: nat) -> Seq<u8>
    decreases k,
{
    if k == 0 {
        zeros(w * h * 4)
    } else {
        let s = (k - 1) as nat;
        let sh = stripe_height(h);
        overlaid(wiggled(data, w, h, i, ms, micros, s), w, h, crop_rows(data, w, s * sh, sh), w, sh,
            phase_offset(wiggle_phase(i, s, ms, micros)) * shift_size(w), (s * sh) as int)
    }
}

/// The whole stripes of a frame `h` rows high.
pub open spec fn stripe_count(h: nat) -> nat {
    h / stripe_height(h)
}

/// `out` is the wiggling of `a0`, the frames already slowed down.
pub open spec fn wiggled_frames(out: Seq<FrameView>, a0: Seq<FrameView>, micros: int) -> bool {
    &&& a0.len() == 0 ==> out.len() == 0
    &&& a0.len() > 0 ==> {
        let ms = delay_millis(a0[0].delay);
        exists|a: Seq<FrameView>| #![auto] align_outcome(a, a0, wiggle_interval(ms, micros)) && out.len() == a.len()
            && forall|i: int| 0 <= i < a.len() ==> #[trigger] out[i] == a[i].with_data(
                wiggled(a[i].data, a[i].width, a[i].height, i as nat, ms, micros, stripe_count(a[i].height)))
    }
}

/// The sizes a wiggle works with: the sideways step and the stripe height.
pub struct WiggleData {
    pub shift_size: u32,
    pub stripe_height: u32,
}

impl WiggleData {
    /// The sizes for a frame of `buffer_width` by `buffer_height` pixels.
    pub fn new(buffer_width: u32, buffer_height: u32) -> (r: WiggleData)
        ensures
            r.shift_size == shift_size(buffer_width as nat),
            r.stripe_height == stripe_height(buffer_height as nat),
    {
        let shift_size: u32 = if buffer_width == 0 { 1 } else { ((buffer_width as u64 + 49) / 50) as u32 };
        let stripe_height: u32 = if buffer_height < 48 { 1 } else { buffer_height / 48 };
        WiggleData { shift_size, stripe_height }
    }
}

/// `data[lo..hi]`, copied.
fn copy_range(data: &Vec<u8>, lo: usize, hi: usize) -> (r: Vec<u8>)
    requires
        lo <= hi <= data@.len(),
    ensures
        r@ == data@.subrange(lo as int, hi as int),
{
    let mut r: Vec<u8> = Vec::new();
    let mut k: usize = lo;
    while k < hi
        invariant
            lo <= k <= hi <= data@.len(),
            r@ == data@.subrange(lo as int, k as int),
        decreases hi - k,
    {
        r.push(data[k]);
        k = k + 1;
        assert(r@ =~= data@.subrange(lo as int, k as int));
    }
    r
}

/// The buffer of frame `i`, wiggled.
fn wiggle_frame_data(data: &Vec<u8>, w: u32, h: u32, i: usize, ms: u64, micros: i64) -> (r: Vec<u8>)
    requires
        data@.len() == w as nat * h as nat * 4,
        ms <= 60,
    ensures
        r@ == wiggled(data@, w as nat, h as nat, i as nat, ms as nat, micros as int, stripe_count(h as nat)),
        r@.len() == data@.len(),
{
    let sizes = WiggleData::new(w, h);
    let sh: u32 = sizes.stripe_height;
    let step: i64 = sizes.shift_size as i64;
    let count: u32 = h / sh;
    let mut buf = transparent(data.len());
    assert(buf@ =~= zeros(w as nat * h as nat * 4));
    let mut s: u32 = 0;
    while s < count
        invariant
            data@.len() == w as nat * h as nat * 4,
            sh == stripe_height(h as nat),
            step == shift_size(w as nat),
            count == stripe_count(h as nat),
            ms <= 60,
            s <= count,
            buf@ == wiggled(data@, w as nat, h as nat, i as nat, ms as nat, micros as int, s as nat),
            buf@.len() == w as nat * h as nat * 4,
        decreases count - s,
    {
        proof {
            assert(s * sh + sh <= h) by (nonlinear_arith)
                requires s < count, count == h / sh, sh >= 1;
        }
        let y: usize = s as usize * sh as usize;
        proof {
            assert((y + sh) * w * 4 <= w * h * 4) by (nonlinear_arith)
                requires y + sh <= h;
            assert(y * w * 4 <= data@.len() && y * w <= data@.len()) by (nonlinear_arith)
                requires y + sh <= h, data@.len() == w * h * 4;
        }
        let dl = data.len();
        assert(y * w * 4 <= dl);
        let lo = y * w as usize * 4;
        let hi = (y + sh as usize) * w as usize * 4;
        assert(lo <= hi) by (nonlinear_arith)
            requires lo == y * w * 4, hi == (y + sh) * w * 4;
        let stripe = copy_range(data, lo, hi);
        proof {
            assert((y + sh) * w * 4 - y * w * 4 == w * sh * 4) by (nonlinear_arith);
        }
        let phase = stripe_phase(i, s, ms, micros);
        let off: i64 = offset_of(phase) * step;
        overlay(&mut buf, w, h, &stripe, w, sh, off, y as i64);
        s = s + 1;
    }
    buf
}

/// `wiggle_phase`, computed.
fn stripe_phase(i: usize, s: u32, ms: u64, micros: i64) -> (r: u64)
    requires
        ms <= 60,
    ensures
        r == wiggle_phase(i as nat, s as nat, ms as nat, micros as int),
        r < 8,
{
    if ms == 0 || micros <= 0 {
        return s as u64 % 8;
    }
    assert(100000 * i * ms <= 100000 * 0xffff_ffff_ffff_ffff * 60) by (nonlinear_arith)
        requires i <= 0xffff_ffff_ffff_ffff, ms <= 60;
    let q: u128 = (100000 * i as u128 * ms as u128) / micros as u128;
    ((q % 8) as u64 + s as u64) % 8
}

/// `phase_offset`, computed.
fn offset_of(phase: u64) -> (r: i64)
    ensures
        r == phase_offset(phase as nat),
{
    if phase == 1 || phase == 3 {
        -1
    } else if phase == 2 {
        -2
    } else if phase == 5 || phase == 7 {
        1
    } else if phase == 6 {
        2
    } else {
        0
    }
}

/// Wiggles the frames: the image is cut into horizontal stripes a 48th of its
/// height, and each stripe swings sideways through eight phases, a stripe one
/// phase ahead of the one above it, a cycle taking `64 * speed / 8`
/// centiseconds. The frames are first slowed to at most six centiseconds
/// each and aligned to a cycle. Frames that cannot be slowed down in memory
/// are left as they are.
pub fn wiggle(frames: &mut Vec<Frame>, speed: Decimal, rng: &mut Rng)
    requires
        same_size(views(old(frames)@)),
    ensures
        !speed_fits(views(old(frames)@), 6) ==> views(final(frames)@) == views(old(frames)@),
        speed_fits(views(old(frames)@), 6) ==> wiggled_frames(views(final(frames)@), speed_aligned(views(old(frames)@), 6), speed.micros as int),
        same_size(views(final(frames)@)),
{
    let ghost s0 = views(frames@);
    if frames.len() == 0 {
        return;
    }
    let w = frames[0].width;
    let h = frames[0].height;
    proof {
        lemma_speed_aligned(s0, 6, w as nat, h as nat);
    }
    if !align_speed(frames, 6) {
        return;
    }
    let ghost a0 = views(frames@);
    let ms = get_delay_millis(frames[0].delay);
    assert(a0[0].delay == frames@[0].delay);
    let micros = speed.micros;
    let interval: usize = if ms == 0 || micros <= 0 {
        1
    } else {
        to_interval((micros as u64 / (12500 * ms)) as u128)
    };
    assert(interval == wiggle_interval(ms as nat, micros as int));
    let mut aligned = align_gif(frames, interval, rng);
    let ghost a = views(aligned@);
    proof {
        lemma_alignment_uniform(a, a0, interval as nat, w as nat, h as nat);
    }
    let mut rest = take_reversed(&mut aligned);
    let n = rest.len();
    let mut out: Vec<Frame> = Vec::new();
    assert(views(rest@).len() == rest@.len());
    while rest.len() > 0
        invariant
            n == a.len(),
            ms <= 60,
            uniform(a, w as nat, h as nat),
            rest@.len() <= n,
            views(rest@) == rev(a).take(rest@.len() as int),
            out@.len() == n - rest@.len(),
            forall|i: int| 0 <= i < out@.len() ==> {
                &&& #[trigger] views(out@)[i] == a[i].with_data(
                    wiggled(a[i].data, a[i].width, a[i].height, i as nat, ms as nat, micros as int, stripe_count(a[i].height)))
                &&& views(out@)[i].wf()
            },
        decreases rest.len(),
    {
        let ghost before_r = rest@;
        let ghost before_o = out@;
        let i = out.len();
        let mut f = rest.pop().unwrap();
        proof {
            assert(views(before_r)[before_r.len() - 1] == f@);
            assert(f@ == a[n - before_r.len()]);
        }
        let data = wiggle_frame_data(&f.data, w, h, i, ms, micros);
        f.data = data;
        out.push(f);
        proof {
            lemma_views_push(before_o, f);
            assert(views(before_r.drop_last()) =~= views(before_r).drop_last());
            assert(views(rest@) =~= rev(a).take(rest@.len() as int));
        }
    }
    *frames = out;
    proof {
        assert(uniform(views(frames@), w as nat, h as nat));
        assert(align_outcome(a, a0, wiggle_interval(delay_millis(a0[0].delay), micros as int)));
    }
}

} // verus!
