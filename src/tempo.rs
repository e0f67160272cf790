use vstd::prelude::*;
use crate::frame::{Frame, FrameView, Delay, views, delay_of, get_delay, lemma_views_push, take_reversed, rev, MAX_CENTISECS};
use crate::number::{Decimal, ONE};

verus! {

/// Every frame with its delay replaced by `d`.
pub open spec fn with_delays(s: Seq<FrameView>, d: Delay) -> Seq<FrameView> {
    s.map_values(|f: FrameView| f.with_delay(d))
}

/// `x` rounded to the nearest integer, halves away from zero, and held
/// within `[0, MAX_CENTISECS]`.
pub open spec fn round_centisecs(micros: int) -> nat {
    if micros <= 0 {
        0
    } else {
        let r = (micros + ONE / 2) / ONE as int;
        if r > MAX_CENTISECS { MAX_CENTISECS as nat } else { r as nat }
    }
}

/// Sets the delay of every frame to `centisecs` centiseconds.
pub fn speed(frames: &mut Vec<Frame>, centisecs: u32)
    requires
        centisecs <= MAX_CENTISECS,
    ensures
        views(final(frames)@) == with_delays(views(old(frames)@), delay_of(centisecs as nat)),
{
    let d = get_delay(centisecs);
    let ghost start = views(frames@);
    let mut rest = take_reversed(frames);
    let n = rest.len();
    assert(views(rest@).len() == rest@.len());
    while rest.len() > 0
        invariant
            d == delay_of(centisecs as nat),
            n == start.len(),
            rest@.len() <= n,
            views(rest@) == rev(start).take(rest@.len() as int),
            views(frames@) == with_delays(start, d).take(n - rest@.len()),
        decreases rest.len(),
    {
        let ghost before_r = rest@;
        let ghost before_f = frames@;
        let mut f = rest.pop().unwrap();
        proof {
            assert(views(before_r)[before_r.len() - 1] == f@);
            assert(f@ == start[n - before_r.len()]);
        }
        f.delay = d;
        frames.push(f);
        proof {
            lemma_views_push(before_f, f);
            assert(views(before_r.drop_last()) =~= views(before_r).drop_last());
            assert(views(rest@) =~= rev(start).take(rest@.len() as int));
            assert(views(frames@) =~= with_delays(start, d).take(n - rest@.len()));
        }
    }
    assert(with_delays(start, d).take(n as int) =~= with_delays(start, d));
}

/// The whole number of centiseconds nearest to `value`, halves away from zero,
/// held within `[0, MAX_CENTISECS]`.
pub fn round_to_centisecs(value: Decimal) -> (r: u32)
    ensures
        r == round_centisecs(value.micros as int),
        r <= MAX_CENTISECS,
{
    if value.micros <= 0 {
        0
    } else {
        let q = value.micros / ONE;
        let rem = value.micros % ONE;
        let r = if rem >= ONE / 2 { q + 1 } else { q };
        proof {
            vstd::arithmetic::div_mod::lemma_fundamental_div_mod(value.micros as int, ONE as int);
            let m = value.micros as int;
            if rem >= ONE / 2 {
                vstd::arithmetic::div_mod::lemma_fundamental_div_mod_converse(m + ONE / 2, ONE as int, q + 1, rem + ONE / 2 - ONE);
            } else {
                vstd::arithmetic::div_mod::lemma_fundamental_div_mod_converse(m + ONE / 2, ONE as int, q as int, rem + ONE / 2);
            }
        }
        if r > MAX_CENTISECS as i64 {
            MAX_CENTISECS
        } else {
            r as u32
        }
    }
}

/// Sets every frame's delay to `value` centiseconds, rounded.
pub fn speed_by(frames: &mut Vec<Frame>, value: Decimal)
    ensures
        views(final(frames)@) == with_delays(views(old(frames)@), delay_of(round_centisecs(value.micros as int))),
{
    let c = round_to_centisecs(value);
    speed(frames, c);
}

/// Plays the frames at maximum speed: up to four frames all get a delay of two
/// centiseconds; of more, every other frame (the first, third, ...) is kept,
/// each with a delay of two centiseconds.
pub fn hyperspeed(frames: &mut Vec<Frame>)
    ensures
        old(frames)@.len() <= 4 ==> views(final(frames)@) == with_delays(views(old(frames)@), delay_of(2)),
        old(frames)@.len() > 4 ==> views(final(frames)@) == with_delays(every_other(views(old(frames)@)), delay_of(2)),
{
    if frames.len() <= 4 {
        speed(frames, 2);
        return;
    }
    let mut kept: Vec<Frame> = Vec::new();
    let ghost start = views(frames@);
    let mut i: usize = 0;
    while i < frames.len()
        invariant
            start == views(frames@),
            i <= frames@.len(),
            i % 2 == 0 || i == frames@.len(),
            views(kept@) == every_other(start.take(i as int)),
        decreases frames.len() - i,
    {
        let d = frames[i].duplicate();
        let ghost before = kept@;
        kept.push(d);
        proof {
            crate::frame::lemma_views_push(before, d);
            lemma_every_other_step(start, i as int);
        }
        if frames.len() - i >= 2 {
            i = i + 2;
        } else {
            i = frames.len();
        }
    }
    assert(start.take(i as int) =~= start);
    speed(&mut kept, 2);
    *frames = kept;
}

/// The frames at even positions, in order.
pub open spec fn every_other(s: Seq<FrameView>) -> Seq<FrameView> {
    Seq::new(((s.len() + 1) / 2) as nat, |k: int| s[2 * k])
}

proof fn lemma_every_other_step(s: Seq<FrameView>, i: int)
    requires
        0 <= i < s.len(),
        i % 2 == 0,
    ensures
        every_other(s.take(i)).push(s[i]) == every_other(s.take(if i + 2 <= s.len() { i + 2 } else { s.len() as int })),
{
    let j = if i + 2 <= s.len() { i + 2 } else { s.len() as int };
    assert(every_other(s.take(i)).push(s[i]) =~= every_other(s.take(j)));
}

/// Reverses the order of the frames.
pub fn reverse(frames: &mut Vec<Frame>)
    ensures
        views(final(frames)@) == rev(views(old(frames)@)),
{
    let r = take_reversed(frames);
    *frames = r;
}

/// Reversing twice gives back the frames in their first order.
pub proof fn lemma_reverse_twice(s: Seq<FrameView>)
    ensures
        rev(rev(s)) == s,
{
    assert(rev(rev(s)) =~= s);
}

/// Hyperspeed on more than four frames keeps half of them, rounded up.
pub proof fn lemma_hyperspeed_len(s: Seq<FrameView>)
    requires
        s.len() > 4,
    ensures
        with_delays(every_other(s), delay_of(2)).len() == (s.len() + 1) / 2,
{
}

} // verus!
