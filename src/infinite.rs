use vstd::prelude::*;
use crate::align::{align_gif, align_speed, align_outcome, speed_aligned, speed_fits, lemma_speed_aligned, lemma_alignment_uniform, clamp_interval, to_interval};
use crate::frame::{Frame, FrameView, views, take_reversed, rev, lemma_views_push, delay_millis, get_delay_millis, same_size, uniform};
use crate::image_ops::{overlaid, overlay, resized, resize_nearest, transparent, zeros};
use crate::number::Decimal;
use crate::resize::resample_fits;
use crate::rng::Rng;

verus! {

/// Layers of the zoom, the largest first.
pub const LAYERS: u32 = 5;

/// The denominator of the zoom's scales: the speed in millionths, or one for
/// a speed that is not positive.
pub open spec fn scale_den(micros: int) -> nat {
    if micros > 0 { micros as nat } else { 1 }
}

/// How much each scale grows per frame, over `scale_den`: a frame of `ms / 10`
/// centiseconds at speed `micros / ONE` zooms by `8000 * ms / micros`, a whole
/// step of one taking `100 * speed / 8` centiseconds; no growth for a speed that
/// is not positive.
pub open spec fn scale_step(ms: nat, micros: int) -> nat {
    if micros > 0 { 8000 * ms } else { 0 }
}

/// Frames per step of the zoom. Held within `[1, MAX_INTERVAL]`; one where
/// it is undefined.
pub open spec fn infinite_interval(ms: nat, micros: int) -> nat {
    if ms == 0 || micros <= 0 {
        1
    } else {
        clamp_interval(micros / (8000 * ms) as int)
    }
}

/// How many steps frame `i` is into the zoom's cycle: the cycle starts over
/// after the frame whose largest scale reaches `LAYERS`.
pub open spec fn cycle_pos(i: nat, den: nat, step: nat) -> nat
    decreases i,
{
    if i == 0 {
        0
    } else {
        let j = cycle_pos((i - 1) as nat, den, step);
        if step * (1 + j) >= den { 0 } else { j + 1 }
    }
}

/// `size * num / den` pixels, rounded, halves up, and at most `u32::MAX`.
pub open spec fn layer_size(size: nat, num: nat, den: nat) -> nat {
    let r = (2 * size * num + den) / (2 * den);
    if r > u32::MAX { u32::MAX as nat } else { r }
}

/// `x / 2` rounded, halves away from zero.
pub open spec fn half_round(x: int) -> int {
    if x >= 0 { (x + 1) / 2 } else { -((-x + 1) / 2) }
}

/// The buffer after layers `0..k` are drawn onto a transparent one: layer `d`
/// is the frame scaled by `((LAYERS - 1 - d) * den + grow) / den`, centered;
/// a layer too large to resample is left out.
pub open spec fn stacked(data: Seq<u8>, w: nat, h: nat, den: nat, grow: nat, k: nat) -> Seq<u8>
    decreases k,
{
    if k == 0 {
        zeros(w * h * 4)
    } else {
        let d = (k - 1) as nat;
        let below = stacked(data, w, h, den, grow, d);
        let num = ((LAYERS - 1 - d) * den + grow) as nat;
        let sw = layer_size(w, num, den);
        let sh = layer_size(h, num, den);
        if d < LAYERS && resample_fits(w, h, sw, sh) {
            overlaid(below, w, h, resized(data, w, h, sw, sh), sw, sh, -half_round(sw - w), -half_round(sh - h))
        } else {
            below
        }
    }
}

/// `out` is the zoom of `a0`, the frames already slowed down.
pub open spec fn zoomed(out: Seq<FrameView>, a0: Seq<FrameView>, micros: int) -> bool {
    &&& a0.len() == 0 ==> out.len() == 0
    &&& a0.len() > 0 ==> {
        let ms = delay_millis(a0[0].delay);
        let den = scale_den(micros);
        let step = scale_step(ms, micros);
        exists|a: Seq<FrameView>| #![auto] align_outcome(a, a0, infinite_interval(ms, micros)) && out.len() == a.len()
            && forall|i: int| 0 <= i < a.len() ==> #[trigger] out[i] == a[i].with_data(
                stacked(a[i].data, a[i].width, a[i].height, den, step * (1 + cycle_pos(i as nat, den, step)), LAYERS as nat))
    }
}

/// `layer_size`, computed.
fn layer_px(size: u32, num: u128, den: u128) -> (r: u32)
    requires
        den >= 1,
        num <= 0x4_0000_0000_0000_0000_0000,
        den <= 0x8000_0000_0000_0000,
    ensures
        r == layer_size(size as nat, num as nat, den as nat),
{
    assert(2 * size * num <= 2 * 0xffff_ffff * 0x4_0000_0000_0000_0000_0000) by (nonlinear_arith)
        requires size <= 0xffff_ffff, num <= 0x4_0000_0000_0000_0000_0000;
    let a: u128 = 2 * size as u128;
    assert(a * num <= 2 * 0xffff_ffff * 0x4_0000_0000_0000_0000_0000) by (nonlinear_arith)
        requires a <= 2 * 0xffff_ffff, num <= 0x4_0000_0000_0000_0000_0000;
    let r = (a * num + den) / (2 * den);
    if r > u32::MAX as u128 { u32::MAX } else { r as u32 }
}

/// `half_round`, computed.
fn half_round_px(a: u32, b: u32) -> (r: i64)
    ensures
        r == half_round(a - b),
{
    if a >= b {
        ((a - b) as i64 + 1) / 2
    } else {
        -(((b - a) as i64 + 1) / 2)
    }
}

/// The buffer of one frame with its layers drawn.
fn infinite_shift_frame(data: &Vec<u8>, w: u32, h: u32, den: u128, grow: u128) -> (r: Vec<u8>)
    requires
        data@.len() == w as nat * h as nat * 4,
        den >= 1,
        den <= 0x8000_0000_0000_0000,
        grow <= 0x1_0000_0000_0000_0000_0000,
    ensures
        r@ == stacked(data@, w as nat, h as nat, den as nat, grow as nat, LAYERS as nat),
        r@.len() == data@.len(),
{
    let mut buf = transparent(data.len());
    assert(buf@ =~= zeros(w as nat * h as nat * 4));
    let mut d: u32 = 0;
    while d < LAYERS
        invariant
            data@.len() == w as nat * h as nat * 4,
            den >= 1,
            den <= 0x8000_0000_0000_0000,
            grow <= 0x1_0000_0000_0000_0000_0000,
            d <= LAYERS,
            buf@ == stacked(data@, w as nat, h as nat, den as nat, grow as nat, d as nat),
            buf@.len() == data@.len(),
        decreases LAYERS - d,
    {
        let k: u128 = (LAYERS - 1 - d) as u128;
        assert(k * den <= 4 * 0x8000_0000_0000_0000) by (nonlinear_arith)
            requires k <= 4, den <= 0x8000_0000_0000_0000;
        let num: u128 = k * den + grow;
        let sw = layer_px(w, num, den);
        let sh = layer_px(h, num, den);
        assert(sw as u128 * sh as u128 <= 0xffff_ffff * 0xffff_ffff && w as u128 * sh as u128 <= 0xffff_ffff * 0xffff_ffff) by (nonlinear_arith)
            requires sw <= 0xffff_ffff, sh <= 0xffff_ffff, w <= 0xffff_ffff;
        if w >= 1 && h >= 1 && sw as u128 * sh as u128 * 4 <= usize::MAX as u128 && w as u128 * sh as u128 * 4 <= usize::MAX as u128 {
            let layer = resize_nearest(data, w, h, sw, sh);
            let dx = half_round_px(sw, w);
            let dy = half_round_px(sh, h);
            overlay(&mut buf, w, h, &layer, sw, sh, -dx, -dy);
        }
        d = d + 1;
    }
    buf
}

/// Zooms into the frames without end: each frame becomes a stack of copies of
/// itself at five scales a step of one apart, growing by `scale_step` a frame
/// and starting over when the largest reaches five, so that the zoom seems to
/// go on forever. The frames are first slowed to at most eight centiseconds
/// each and aligned to a step. Frames that cannot be slowed down in memory are
/// left as they are.
pub fn infinite(frames: &mut Vec<Frame>, speed: Decimal, rng: &mut Rng)
    requires
        same_size(views(old(frames)@)),
    ensures
        !speed_fits(views(old(frames)@), 8) ==> views(final(frames)@) == views(old(frames)@),
        speed_fits(views(old(frames)@), 8) ==> zoomed(views(final(frames)@), speed_aligned(views(old(frames)@), 8), speed.micros as int),
        same_size(views(final(frames)@)),
{
    let ghost s0 = views(frames@);
    if frames.len() == 0 {
        return;
    }
    let w = frames[0].width;
    let h = frames[0].height;
    proof {
        lemma_speed_aligned(s0, 8, w as nat, h as nat);
    }
    if !align_speed(frames, 8) {
        return;
    }
    let ghost a0 = views(frames@);
    let ms = get_delay_millis(frames[0].delay);
    assert(a0[0].delay == frames@[0].delay);
    let micros = speed.micros;
    let den: u128 = if micros > 0 { micros as u128 } else { 1 };
    let step: u128 = if micros > 0 { 8000 * ms as u128 } else { 0 };
    let interval: usize = if ms == 0 || micros <= 0 {
        1
    } else {
        to_interval((micros as u64 / (8000 * ms)) as u128)
    };
    assert(interval == infinite_interval(ms as nat, micros as int));
    let mut aligned = align_gif(frames, interval, rng);
    let ghost a = views(aligned@);
    proof {
        lemma_alignment_uniform(a, a0, interval as nat, w as nat, h as nat);
    }
    let mut rest = take_reversed(&mut aligned);
    let n = rest.len();
    let mut out: Vec<Frame> = Vec::new();
    let mut j: u128 = 0;
    assert(views(rest@).len() == rest@.len());
    while rest.len() > 0
        invariant
            n == a.len(),
            ms <= 80,
            den == scale_den(micros as int),
            step == scale_step(ms as nat, micros as int),
            uniform(a, w as nat, h as nat),
            rest@.len() <= n,
            views(rest@) == rev(a).take(rest@.len() as int),
            out@.len() == n - rest@.len(),
            j == cycle_pos(out@.len() as nat, den as nat, step as nat),
            j <= out@.len() || step > 0,
            step > 0 ==> step * j < den,
            forall|i: int| 0 <= i < out@.len() ==> {
                &&& #[trigger] views(out@)[i] == a[i].with_data(
                    stacked(a[i].data, a[i].width, a[i].height, den as nat, step as nat * (1 + cycle_pos(i as nat, den as nat, step as nat)), LAYERS as nat))
                &&& views(out@)[i].wf()
            },
        decreases rest.len(),
    {
        let ghost before_r = rest@;
        let ghost before_o = out@;
        let i = out.len();
        let mut f = rest.pop().unwrap();
        proof {
            assert(views(before_r)[before_r.len() - 1] == f@);
            assert(f@ == a[n - before_r.len()]);
            assert(j <= 0xffff_ffff_ffff_ffff || step > 0);
            if step > 0 {
                assert(j < den) by (nonlinear_arith) requires step * j < den, step > 0;
            }
            assert(step * (1 + j) <= 0x1_0000_0000_0000_0000_0000) by (nonlinear_arith)
                requires
                    j <= 0xffff_ffff_ffff_ffff || step > 0,
                    step > 0 ==> step * j < den,
                    step == 0 || step <= 8000 * 80,
                    den <= 0x8000_0000_0000_0000;
        }
        let grow = step * (1 + j);
        let data = infinite_shift_frame(&f.data, w, h, den, grow);
        f.data = data;
        out.push(f);
        j = if step * (1 + j) >= den { 0 } else { j + 1 };
        proof {
            lemma_views_push(before_o, f);
            assert(views(before_r.drop_last()) =~= views(before_r).drop_last());
            assert(views(rest@) =~= rev(a).take(rest@.len() as int));
        }
    }
    *frames = out;
    proof {
        assert(uniform(views(frames@), w as nat, h as nat));
        assert(align_outcome(a, a0, infinite_interval(delay_millis(a0[0].delay), micros as int)));
    }
}

} // verus!
