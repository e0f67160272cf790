use vstd::prelude::*;
use crate::align::{align_gif, align_speed, align_outcome, speed_aligned, speed_fits, lemma_speed_aligned, lemma_alignment_uniform, clamp_interval, to_interval};
use crate::angle::{Angle, stepped_angle, step_angle};
use crate::frame::{Frame, FrameView, views, delay_millis, get_delay_millis, same_size};
use crate::number::Decimal;
use crate::rng::Rng;

verus! {

/// Which way a spin turns.
#[derive(Clone, Copy, PartialEq, Eq, Structural, Debug)]
pub enum Direction {
    Clockwise,
    CounterClockwise,
}

/// Frames per turn for frames of `ms / 10` centiseconds at speed
/// `micros / ONE`: a turn takes `200 * speed / 8` centiseconds. Held within
/// `[1, MAX_INTERVAL]`; one where it is undefined.
pub open spec fn spin_interval(ms: nat, micros: int) -> nat {
    if ms == 0 || micros <= 0 {
        1
    } else {
        clamp_interval(micros / (4000 * ms) as int)
    }
}

/// The angle of frame `i`: `i` times `1440000 * ms / micros` degrees, modulo
/// 360, negative counter-clockwise; none for a speed that is not positive.
pub open spec fn spin_angle(i: nat, ms: nat, micros: int, d: Direction) -> Angle {
    if micros <= 0 {
        Angle { num: 0, den: 1 }
    } else {
        stepped_angle(i, 1440000 * ms, micros as nat, d == Direction::CounterClockwise)
    }
}

/// `frames` and `angles` are the spinning of `a0`, the frames already slowed
/// down: an alignment of them to a turn, and the angle to turn each by.
pub open spec fn spun(frames: Seq<FrameView>, angles: Seq<Angle>, a0: Seq<FrameView>, micros: int, d: Direction) -> bool {
    &&& a0.len() == 0 ==> frames.len() == 0 && angles.len() == 0
    &&& a0.len() > 0 ==> {
        let ms = delay_millis(a0[0].delay);
        &&& align_outcome(frames, a0, spin_interval(ms, micros))
        &&& angles.len() == frames.len()
        &&& forall|i: int| 0 <= i < angles.len() ==> #[trigger] angles[i] == spin_angle(i as nat, ms, micros, d)
    }
}

/// Prepares a spin: the frames are slowed to at most eight centiseconds each
/// and aligned to a turn of `200 * speed / 8` centiseconds; the result is the
/// angle to turn each frame by about its center. Frames that cannot be slowed
/// down in memory are left as they are, with no angles.
pub fn spin(frames: &mut Vec<Frame>, speed: Decimal, direction: Direction, rng: &mut Rng) -> (angles: Vec<Angle>)
    requires
        same_size(views(old(frames)@)),
    ensures
        !speed_fits(views(old(frames)@), 8) ==> views(final(frames)@) == views(old(frames)@) && angles@.len() == 0,
        speed_fits(views(old(frames)@), 8) ==> spun(views(final(frames)@), angles@, speed_aligned(views(old(frames)@), 8), speed.micros as int, direction),
        same_size(views(final(frames)@)),
{
    let ghost s0 = views(frames@);
    if frames.len() == 0 {
        return Vec::new();
    }
    let w = frames[0].width;
    let h = frames[0].height;
    proof {
        lemma_speed_aligned(s0, 8, w as nat, h as nat);
    }
    if !align_speed(frames, 8) {
        return Vec::new();
    }
    let ghost a0 = views(frames@);
    let ms = get_delay_millis(frames[0].delay);
    assert(a0[0].delay == frames@[0].delay);
    let micros = speed.micros;
    let interval: usize = if ms == 0 || micros <= 0 {
        1
    } else {
        to_interval((micros as u64 / (4000 * ms)) as u128)
    };
    assert(interval == spin_interval(ms as nat, micros as int));
    let aligned = align_gif(frames, interval, rng);
    let ghost a = views(aligned@);
    proof {
        lemma_alignment_uniform(a, a0, interval as nat, w as nat, h as nat);
    }
    let mut angles: Vec<Angle> = Vec::new();
    let mut i: usize = 0;
    while i < aligned.len()
        invariant
            i <= aligned@.len(),
            ms <= 80,
            angles@.len() == i,
            forall|k: int| 0 <= k < i ==> #[trigger] angles@[k] == spin_angle(k as nat, ms as nat, micros as int, direction),
        decreases aligned@.len() - i,
    {
        let angle = if micros <= 0 {
            Angle { num: 0, den: 1 }
        } else {
            step_angle(i, 1440000 * ms as u128, micros as u64, direction == Direction::CounterClockwise)
        };
        angles.push(angle);
        i = i + 1;
    }
    *frames = aligned;
    angles
}

} // verus!
