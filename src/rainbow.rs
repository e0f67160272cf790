use vstd::prelude::*;
use crate::align::{align_gif, align_speed, align_outcome, speed_aligned, speed_fits, lemma_speed_aligned, lemma_alignment_uniform, clamp_interval, to_interval};
use crate::angle::{Angle, stepped_angle, step_angle};
use crate::frame::{Frame, FrameView, views, delay_millis, get_delay_millis, same_size};
use crate::number::Decimal;
use crate::rng::Rng;

verus! {

/// Frames per color cycle for frames of `ms / 10` centiseconds at speed
/// `micros / ONE`: a cycle takes `120 * speed / 8` centiseconds. Held within
/// `[1, MAX_INTERVAL]`; one where it is undefined.
pub open spec fn rainbow_interval(ms: nat, micros: int) -> nat {
    if ms == 0 || micros <= 0 {
        1
    } else {
        clamp_interval((3 * micros) / (20000 * ms) as int)
    }
}

/// The hue shift of frame `i`: `i` times `2400000 * ms / micros` degrees,
/// modulo 360; none for a speed that is not positive.
pub open spec fn rainbow_shift(i: nat, ms: nat, micros: int) -> Angle {
    if micros <= 0 {
        Angle { num: 0, den: 1 }
    } else {
        stepped_angle(i, 2400000 * ms, micros as nat, false)
    }
}

/// `frames` and `shifts` are the rainbow of `a0`, the frames already slowed
/// down: an alignment of them to a cycle, and each frame's hue shift.
pub open spec fn cycled(frames: Seq<FrameView>, shifts: Seq<Angle>, a0: Seq<FrameView>, micros: int) -> bool {
    &&& a0.len() == 0 ==> frames.len() == 0 && shifts.len() == 0
    &&& a0.len() > 0 ==> {
        let ms = delay_millis(a0[0].delay);
        &&& align_outcome(frames, a0, rainbow_interval(ms, micros))
        &&& shifts.len() == frames.len()
        &&& forall|i: int| 0 <= i < shifts.len() ==> #[trigger] shifts[i] == rainbow_shift(i as nat, ms, micros)
    }
}

/// Prepares a rainbow: the frames are slowed to at most eight centiseconds
/// each and aligned to a color cycle of `120 * speed / 8` centiseconds; the
/// result is the hue shift of each frame. Frames that cannot be slowed down in
/// memory are left as they are, with no shifts.
pub fn rainbow(frames: &mut Vec<Frame>, speed: Decimal, rng: &mut Rng) -> (shifts: Vec<Angle>)
    requires
        same_size(views(old(frames)@)),
    ensures
        !speed_fits(views(old(frames)@), 8) ==> views(final(frames)@) == views(old(frames)@) && shifts@.len() == 0,
        speed_fits(views(old(frames)@), 8) ==> cycled(views(final(frames)@), shifts@, speed_aligned(views(old(frames)@), 8), speed.micros as int),
        same_size(views(final(frames)@)),
{
    let ghost s0 = views(frames@);
    if frames.len() == 0 {
        return Vec::new();
    }
    let w = frames[0].width;
    let h = frames[0].height;
    proof {
        lemma_speed_aligned(s0, 8, w as nat, h as nat);
    }
    if !align_speed(frames, 8) {
        return Vec::new();
    }
    let ghost a0 = views(frames@);
    let ms = get_delay_millis(frames[0].delay);
    assert(a0[0].delay == frames@[0].delay);
    let micros = speed.micros;
    let interval: usize = if ms == 0 || micros <= 0 {
        1
    } else {
        to_interval((3 * micros as u128) / (20000 * ms as u128))
    };
    assert(interval == rainbow_interval(ms as nat, micros as int));
    let aligned = align_gif(frames, interval, rng);
    let ghost a = views(aligned@);
    proof {
        lemma_alignment_uniform(a, a0, interval as nat, w as nat, h as nat);
    }
    let mut shifts: Vec<Angle> = Vec::new();
    let mut i: usize = 0;
    while i < aligned.len()
        invariant
            i <= aligned@.len(),
            ms <= 80,
            shifts@.len() == i,
            forall|k: int| 0 <= k < i ==> #[trigger] shifts@[k] == rainbow_shift(k as nat, ms as nat, micros as int),
        decreases aligned@.len() - i,
    {
        let shift = if micros <= 0 {
            Angle { num: 0, den: 1 }
        } else {
            step_angle(i, 2400000 * ms as u128, micros as u64, false)
        };
        shifts.push(shift);
        i = i + 1;
    }
    *frames = aligned;
    shifts
}

} // verus!
