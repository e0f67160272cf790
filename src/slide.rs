use vstd::prelude::*;
use crate::align::{align_gif, align_speed, align_outcome, speed_aligned, speed_fits, round_div, lemma_speed_aligned, lemma_alignment_uniform, clamp_interval, to_interval};
use crate::frame::{Frame, FrameView, views, take_reversed, rev, lemma_views_push, delay_millis, get_delay_millis, same_size, uniform};
use crate::number::Decimal;
use crate::pixels::{PixelMap, remap_frame, frames_remapped, remapped, pixel, source_of, lemma_pixels_equal};
use crate::rng::Rng;

verus! {

/// Which way rows turn.
#[derive(Clone, Copy, PartialEq, Eq, Structural, Debug)]
pub enum Direction {
    Forwards,
    Backwards,
}

/// The rows' turn in direction `d` by `n` pixels.
pub open spec fn slide_map(d: Direction, n: nat) -> PixelMap {
    match d {
        Direction::Forwards => PixelMap::RowsRight(n as u32),
        Direction::Backwards => PixelMap::RowsLeft(n as u32),
    }
}

/// Frames per full turn of the rows, for frames of `ms / 10` centiseconds at
/// speed `micros / ONE`: a turn takes `50 * speed / 8` centiseconds. Held
/// within `[1, MAX_INTERVAL]`; one where it is undefined.
pub open spec fn slide_interval(ms: nat, micros: int) -> nat {
    if ms == 0 || micros <= 0 {
        1
    } else {
        clamp_interval(micros / (16000 * ms) as int)
    }
}

/// The turn of frame `i` in pixels: `i` times the step of
/// `16000 * w * ms / micros` pixels, rounded, modulo the width `w`.
pub open spec fn slide_shift(i: nat, w: nat, ms: nat, micros: int) -> nat {
    if micros <= 0 || w == 0 {
        0
    } else {
        round_div(i * 16000 * w * ms, micros as nat) % w
    }
}

/// `out` is the sliding of `a0`, the frames already slowed down: an alignment
/// of them to `slide_interval` whose frame `i` has its rows turned by
/// `slide_shift(i)`.
pub open spec fn slid(out: Seq<FrameView>, a0: Seq<FrameView>, micros: int, d: Direction) -> bool {
    &&& a0.len() == 0 ==> out.len() == 0
    &&& a0.len() > 0 ==> {
        let ms = delay_millis(a0[0].delay);
        let w = a0[0].width;
        exists|a: Seq<FrameView>| #![auto] align_outcome(a, a0, slide_interval(ms, micros))
            && frames_remapped(out, a, |i: int| slide_map(d, slide_shift(i as nat, w, ms, micros)))
    }
}

/// Slides the rows of the frames sideways, wrapping round, so that they make
/// a full turn every `50 * speed / 8` centiseconds: the frames are first
/// slowed to at most six centiseconds each, then aligned to the frames of one
/// turn. Frames that cannot be slowed down in memory are left as they are.
pub fn slide(frames: &mut Vec<Frame>, speed: Decimal, direction: Direction, rng: &mut Rng)
    requires
        same_size(views(old(frames)@)),
    ensures
        !speed_fits(views(old(frames)@), 6) ==> views(final(frames)@) == views(old(frames)@),
        speed_fits(views(old(frames)@), 6) ==> slid(views(final(frames)@), speed_aligned(views(old(frames)@), 6), speed.micros as int, direction),
        same_size(views(final(frames)@)),
{
    let ghost s = views(frames@);
    if frames.len() == 0 {
        return;
    }
    let ghost w0 = s[0].width;
    let ghost h0 = s[0].height;
    proof {
        lemma_speed_aligned(s, 6, w0, h0);
    }
    if !align_speed(frames, 6) {
        return;
    }
    let ghost a0 = views(frames@);
    let w = frames[0].width;
    let ms = get_delay_millis(frames[0].delay);
    assert(a0[0].delay == frames@[0].delay);
    assert(ms <= 60);
    let micros = speed.micros;
    let interval: usize = if ms == 0 || micros <= 0 {
        1
    } else {
        to_interval((micros as u64 / (16000 * ms)) as u128)
    };
    assert(interval == slide_interval(ms as nat, micros as int));
    let mut aligned = align_gif(frames, interval, rng);
    let ghost a = views(aligned@);
    proof {
        lemma_alignment_uniform(a, a0, interval as nat, w0, h0);
    }
    let mut rest = take_reversed(&mut aligned);
    let n = rest.len();
    let mut out: Vec<Frame> = Vec::new();
    let ghost m = |i: int| slide_map(direction, slide_shift(i as nat, w as nat, ms as nat, micros as int));
    assert(views(rest@).len() == rest@.len());
    while rest.len() > 0
        invariant
            n == a.len(),
            uniform(a, w0, h0),
            w0 == w,
            ms <= 60,
            rest@.len() <= n,
            views(rest@) == rev(a).take(rest@.len() as int),
            out@.len() == n - rest@.len(),
            m == (|i: int| slide_map(direction, slide_shift(i as nat, w as nat, ms as nat, micros as int))),
            forall|i: int| 0 <= i < out@.len() ==> {
                &&& #[trigger] views(out@)[i] == a[i].with_data(views(out@)[i].data)
                &&& remapped(views(out@)[i].data, a[i].data, a[i].width, a[i].height, m(i))
                &&& views(out@)[i].wf()
            },
        decreases rest.len(),
    {
        let ghost before_r = rest@;
        let ghost before_o = out@;
        let i = out.len();
        let f = rest.pop().unwrap();
        proof {
            assert(views(before_r)[before_r.len() - 1] == f@);
            assert(f@ == a[n - before_r.len()]);
        }
        let shift = slide_shift_px(i, w, ms, micros);
        let map = match direction {
            Direction::Forwards => PixelMap::RowsRight(shift),
            Direction::Backwards => PixelMap::RowsLeft(shift),
        };
        let g = remap_frame(f, map);
        out.push(g);
        proof {
            lemma_views_push(before_o, g);
            assert(views(before_r.drop_last()) =~= views(before_r).drop_last());
            assert(views(rest@) =~= rev(a).take(rest@.len() as int));
        }
    }
    *frames = out;
    proof {
        assert(frames_remapped(views(frames@), a, m));
        assert(uniform(views(frames@), w0, h0));
    }
}

/// `slide_shift`, computed.
fn slide_shift_px(i: usize, w: u32, ms: u64, micros: i64) -> (r: u32)
    requires
        ms <= 60,
    ensures
        r == slide_shift(i as nat, w as nat, ms as nat, micros as int),
{
    if micros <= 0 || w == 0 {
        return 0;
    }
    let w16k: u128 = 16000 * w as u128;
    assert(w16k * ms as u128 <= 16000 * 0xffff_ffff * 60) by (nonlinear_arith)
        requires w16k <= 16000 * 0xffff_ffff, ms <= 60;
    let step: u128 = w16k * ms as u128;
    assert(i as u128 * step <= 0xffff_ffff_ffff_ffff * (16000 * 0xffff_ffff * 60)) by (nonlinear_arith)
        requires step <= 16000 * 0xffff_ffff * 60, i <= 0xffff_ffff_ffff_ffff;
    let total = i as u128 * step;
    let rounded = (2 * total + micros as u128) / (2 * micros as u128);
    let r = rounded % w as u128;
    proof {
        assert(i * 16000 * w * ms == i * step) by (nonlinear_arith)
            requires step == w16k * ms, w16k == 16000 * w;
    }
    r as u32
}

impl Direction {
    /// The rearrangement that turns each row by `n` pixels this way.
    pub fn rotate_vec(self, n: u32) -> (r: PixelMap)
        ensures
            r == slide_map(self, n as nat),
    {
        match self {
            Direction::Forwards => PixelMap::RowsRight(n),
            Direction::Backwards => PixelMap::RowsLeft(n),
        }
    }
}

/// Turning the rows by the whole width leaves the same buffer as not turning
/// them at all: the turn wraps round.
pub proof fn lemma_full_turn(d: Direction, data: Seq<u8>, zero: Seq<u8>, full: Seq<u8>, w: nat, h: nat)
    requires
        w <= u32::MAX,
        data.len() == w * h * 4,
        remapped(zero, data, w, h, slide_map(d, 0)),
        remapped(full, data, w, h, slide_map(d, w)),
    ensures
        zero == full,
        zero == data,
{
    assert forall|p: int| 0 <= p < w * h implies #[trigger] pixel(zero, p) == pixel(data, p) && pixel(full, p) == pixel(data, p) by {
        let x = p % (w as int);
        let y = p / (w as int);
        assert(w > 0) by (nonlinear_arith) requires 0 <= p < w * h;
        vstd::arithmetic::div_mod::lemma_fundamental_div_mod(p, w as int);
        assert(p == y * w + x) by (nonlinear_arith) requires p == w * y + x;
        vstd::arithmetic::div_mod::lemma_fundamental_div_mod_converse(x - 0, w as int, 0, x);
        vstd::arithmetic::div_mod::lemma_fundamental_div_mod_converse(x - w, w as int, -1, x);
        vstd::arithmetic::div_mod::lemma_fundamental_div_mod_converse(x + 0, w as int, 0, x);
        vstd::arithmetic::div_mod::lemma_fundamental_div_mod_converse(x + w, w as int, 1, x);
        assert(source_of(slide_map(d, 0), w, h, p) == p);
        assert(source_of(slide_map(d, w), w, h, p) == p);
    }
    assert(w * h * 4 == 4 * (w * h)) by (nonlinear_arith);
    lemma_pixels_equal(zero, data, w * h);
    lemma_pixels_equal(full, data, w * h);
}

} // verus!
