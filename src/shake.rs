use vstd::prelude::*;
use crate::align::{align_gif, align_outcome, lemma_alignment_uniform};
use crate::frame::{Frame, FrameView, views, take_reversed, rev, lemma_views_push, delay_millis, get_delay_centisecs, same_size, uniform};
use crate::image_ops::{overlaid, overlay, transparent, zeros};
use crate::number::{Decimal, ONE};
use crate::rng::Rng;

verus! {

/// Frames per shake for frames of `ms / 10` whole centiseconds: a shake of
/// four moves takes 20 centiseconds, and at least four frames.
pub open spec fn shake_interval(ms: nat) -> nat {
    let cs = ms / 10;
    if cs == 0 {
        4
    } else if 20nat / cs < 4 {
        4
    } else {
        20nat / cs
    }
}

/// `a / b` rounded up, for `b > 0`.
pub open spec fn ceil_div(a: int, b: int) -> int {
    if a >= 0 { (a + b - 1) / b } else { -((-a) / b) }
}

/// `x` held within `[-i64::MAX, i64::MAX]`.
pub open spec fn sat_i64(x: int) -> int {
    if x < -i64::MAX { -i64::MAX } else if x > i64::MAX { i64::MAX as int } else { x }
}

/// How far a frame of `size` pixels moves at strength `micros / ONE`:
/// `(10 - strength) / 2 * size / 48`, rounded up.
pub open spec fn shake_reach(micros: int, size: nat) -> int {
    sat_i64(ceil_div((10 * ONE - micros) * size, 96 * ONE))
}

/// The offset of the frame at place `c` of a shake of `n` frames, by quarters:
/// up left, down left, down right, up right; none past the last whole quarter.
pub open spec fn shake_offset(c: nat, n: nat, sw: int, sh: int) -> Option<(int, int)> {
    let step = n / 4;
    if c < step {
        Some((-sw, -sh))
    } else if c < 2 * step {
        Some((-sw, sh))
    } else if c < 3 * step {
        Some((sw, sh))
    } else if c < 4 * step {
        Some((sw, -sh))
    } else {
        None
    }
}

/// `out` is `a` shaken: frame `i` drawn at its offset onto a transparent
/// buffer of its size, or kept as it is where it has none.
pub open spec fn shaken(out: Seq<FrameView>, a: Seq<FrameView>, n: nat, sw: int, sh: int) -> bool {
    &&& out.len() == a.len()
    &&& forall|i: int| 0 <= i < a.len() ==> match shake_offset((i % n as int) as nat, n, sw, sh) {
        None => #[trigger] out[i] == a[i],
        Some((x, y)) => out[i] == a[i].with_data(overlaid(zeros(a[i].data.len()), a[i].width, a[i].height,
            a[i].data, a[i].width, a[i].height, x, y)),
    }
}

/// `out` is `s` shaken at strength `micros / ONE`, after aligning it to a shake.
pub open spec fn shaken_frames(out: Seq<FrameView>, s: Seq<FrameView>, micros: int) -> bool {
    &&& s.len() == 0 ==> out.len() == 0
    &&& s.len() > 0 ==> exists|a: Seq<FrameView>| #![auto] align_outcome(a, s, shake_interval(delay_millis(s[0].delay)))
        && shaken(out, a, shake_interval(delay_millis(s[0].delay)),
            shake_reach(micros, s[0].width), shake_reach(micros, s[0].height))
}

/// Shakes the frames: every 20 centiseconds they move round the four corners
/// of a square whose reach grows as `strength` falls below ten. The frames are
/// first aligned to `shake_interval` frames.
pub fn shake(frames: &mut Vec<Frame>, strength: Decimal, rng: &mut Rng)
    requires
        same_size(views(old(frames)@)),
    ensures
        shaken_frames(views(final(frames)@), views(old(frames)@), strength.micros as int),
        same_size(views(final(frames)@)),
{
    let ghost s = views(frames@);
    if frames.len() == 0 {
        return;
    }
    let w = frames[0].width;
    let h = frames[0].height;
    let cs = get_delay_centisecs(frames[0].delay);
    assert(s[0].delay == frames@[0].delay);
    let ghost ms = delay_millis(s[0].delay);
    let interval: usize = if cs == 0 {
        4
    } else if 20 / cs < 4 {
        4
    } else {
        (20 / cs) as usize
    };
    assert(interval == shake_interval(ms as nat));
    let sw = reach(strength, w);
    let sh = reach(strength, h);
    let mut aligned = align_gif(frames, interval, rng);
    let ghost a = views(aligned@);
    proof {
        lemma_alignment_uniform(a, s, interval as nat, w as nat, h as nat);
    }
    let mut rest = take_reversed(&mut aligned);
    let n = rest.len();
    let mut out: Vec<Frame> = Vec::new();
    assert(views(rest@).len() == rest@.len());
    while rest.len() > 0
        invariant
            n == a.len(),
            interval >= 1,
            sw > i64::MIN,
            sh > i64::MIN,
            uniform(a, w as nat, h as nat),
            rest@.len() <= n,
            views(rest@) == rev(a).take(rest@.len() as int),
            out@.len() == n - rest@.len(),
            forall|i: int| 0 <= i < out@.len() ==> {
                &&& match shake_offset((i % interval as int) as nat, interval as nat, sw as int, sh as int) {
                    None => #[trigger] views(out@)[i] == a[i],
                    Some((x, y)) => views(out@)[i] == a[i].with_data(overlaid(zeros(a[i].data.len()), a[i].width, a[i].height,
                        a[i].data, a[i].width, a[i].height, x, y)),
                }
                &&& views(out@)[i].wf()
            },
        decreases rest.len(),
    {
        let ghost before_r = rest@;
        let ghost before_o = out@;
        let i = out.len();
        let mut f = rest.pop().unwrap();
        proof {
            assert(views(before_r)[before_r.len() - 1] == f@);
            assert(f@ == a[n - before_r.len()]);
        }
        let c = i % interval;
        let step = interval / 4;
        let offset: Option<(i64, i64)> = if c < step {
            Some((-sw, -sh))
        } else if c < 2 * step {
            Some((-sw, sh))
        } else if c < 3 * step {
            Some((sw, sh))
        } else if c < 4 * step {
            Some((sw, -sh))
        } else {
            None
        };
        match offset {
            Some((x, y)) => {
                let mut buf = transparent(f.data.len());
                assert(buf@ =~= zeros(f@.data.len()));
                overlay(&mut buf, w, h, &f.data, w, h, x, y);
                f.data = buf;
            },
            None => {},
        }
        out.push(f);
        proof {
            lemma_views_push(before_o, f);
            assert(views(before_r.drop_last()) =~= views(before_r).drop_last());
            assert(views(rest@) =~= rev(a).take(rest@.len() as int));
        }
    }
    *frames = out;
    proof {
        assert(shaken(views(frames@), a, interval as nat, sw as int, sh as int));
        assert(align_outcome(a, s, shake_interval(delay_millis(s[0].delay))));
        assert(uniform(views(frames@), w as nat, h as nat));
    }
}

/// `shake_reach`, computed.
fn reach(strength: Decimal, size: u32) -> (r: i64)
    ensures
        r == shake_reach(strength.micros as int, size as nat),
        r > i64::MIN,
{
    let base: i128 = 10 * ONE as i128 - strength.micros as i128;
    assert(-0x1_0000_0000_0000_0000 * 0xffff_ffff <= base * size as i128 <= 0x1_0000_0000_0000_0000 * 0xffff_ffff) by (nonlinear_arith)
        requires -0x1_0000_0000_0000_0000 <= base <= 0x1_0000_0000_0000_0000, 0 <= size <= 0xffff_ffff;
    let a: i128 = base * size as i128;
    let d: i128 = 96 * ONE as i128;
    let c: i128 = if a >= 0 { (a + d - 1) / d } else { -((-a) / d) };
    if c < i64::MIN as i128 + 1 {
        i64::MIN + 1
    } else if c > i64::MAX as i128 {
        i64::MAX
    } else {
        c as i64
    }
}

} // verus!
