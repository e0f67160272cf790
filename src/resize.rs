use vstd::prelude::*;
use crate::number::{Decimal, ONE};
use crate::frame::{Frame, FrameView, views, take_reversed, rev, lemma_views_push, same_size, uniform};
use crate::image_ops::{resized, resize_nearest};

verus! {

/// How the frames are to be scaled: uniformly, per axis, or not at all.
#[derive(Clone, Copy, PartialEq, Eq, Structural, Debug)]
pub enum Resize {
    Scale { scale: Decimal },
    Stretch { scale_x: Decimal, scale_y: Decimal },
    Unchanged,
}

impl Default for Resize {
    fn default() -> (r: Resize)
        ensures
            r == Resize::Unchanged,
    {
        Resize::Unchanged
    }
}

/// A pair of scale factors.
#[derive(Clone, Copy, PartialEq, Eq, Structural, Debug)]
pub struct Scale {
    pub x: Decimal,
    pub y: Decimal,
}

/// `ONE * ONE`: the unit of `overall_size`.
pub const ONE_SQUARED: i128 = 1_000_000_000_000;

impl Resize {
    /// The factors along each axis.
    pub open spec fn scale_spec(self) -> Scale {
        match self {
            Resize::Scale { scale } => Scale { x: scale, y: scale },
            Resize::Stretch { scale_x, scale_y } => Scale { x: scale_x, y: scale_y },
            Resize::Unchanged => Scale { x: Decimal { micros: ONE }, y: Decimal { micros: ONE } },
        }
    }

    /// The product of the factors, in units of `1 / ONE_SQUARED`.
    pub open spec fn overall_size_spec(self) -> int {
        self.scale_spec().x.micros * self.scale_spec().y.micros
    }

    /// Whether some factor is not one.
    pub open spec fn requires_work_spec(self) -> bool {
        self.scale_spec().x.micros != ONE || self.scale_spec().y.micros != ONE
    }

    /// Whether some factor is not one.
    pub fn requires_work(self) -> (r: bool)
        ensures
            r == self.requires_work_spec(),
    {
        match self {
            Resize::Scale { scale } => scale.micros != ONE,
            Resize::Stretch { scale_x, scale_y } => scale_x.micros != ONE || scale_y.micros != ONE,
            Resize::Unchanged => false,
        }
    }

    /// The factors along each axis.
    pub fn scale(self) -> (r: Scale)
        ensures
            r == self.scale_spec(),
    {
        match self {
            Resize::Scale { scale } => Scale { x: scale, y: scale },
            Resize::Stretch { scale_x, scale_y } => Scale { x: scale_x, y: scale_y },
            Resize::Unchanged => Scale { x: Decimal { micros: ONE }, y: Decimal { micros: ONE } },
        }
    }

    /// Whether the frames shrink in area: then they are scaled before the effects.
    pub fn pre_commands(self) -> (r: bool)
        ensures
            r == (self.overall_size_spec() < ONE_SQUARED),
    {
        self.overall_size() < ONE_SQUARED
    }

    /// Whether the frames grow in area: then they are scaled after the effects.
    pub fn post_commands(self) -> (r: bool)
        ensures
            r == (self.overall_size_spec() > ONE_SQUARED),
    {
        self.overall_size() > ONE_SQUARED
    }

    /// The product of the factors, in units of `1 / ONE_SQUARED`.
    pub fn overall_size(self) -> (r: i128)
        ensures
            r == self.overall_size_spec(),
    {
        let s = self.scale();
        let x = s.x.micros as i128;
        let y = s.y.micros as i128;
        assert(-0x4000_0000_0000_0000_0000_0000_0000_0000 <= x * y <= 0x4000_0000_0000_0000_0000_0000_0000_0000)
            by (nonlinear_arith)
            requires
                -0x8000_0000_0000_0000 <= x <= 0x8000_0000_0000_0000,
                -0x8000_0000_0000_0000 <= y <= 0x8000_0000_0000_0000,
        ;
        x * y
    }
}

/// `size` pixels scaled by `micros / ONE` and rounded, halves up; none for a
/// factor that is not positive, and at most `u32::MAX`.
pub open spec fn scaled_size(size: nat, micros: int) -> nat {
    if micros <= 0 {
        0
    } else {
        let r = (2 * size * micros + ONE) / (2 * ONE) as int;
        if r > u32::MAX { u32::MAX as nat } else { r as nat }
    }
}

/// Whether the image crate can resample a `w` by `h` buffer to `nw` by `nh`.
pub open spec fn resample_fits(w: nat, h: nat, nw: nat, nh: nat) -> bool {
    w >= 1 && h >= 1 && nw * nh * 4 <= usize::MAX && w * nh * 4 <= usize::MAX
}

/// The frame resampled to `nw` by `nh` pixels.
pub open spec fn resized_frame(f: FrameView, nw: nat, nh: nat) -> FrameView {
    FrameView { width: nw, height: nh, data: resized(f.data, f.width, f.height, nw, nh), ..f }
}

/// `scaled_size`, computed.
pub fn scale_size(size: u32, factor: Decimal) -> (r: u32)
    ensures
        r == scaled_size(size as nat, factor.micros as int),
{
    if factor.micros <= 0 {
        return 0;
    }
    assert(2 * size * factor.micros <= 2 * 0xffff_ffff * 0x7fff_ffff_ffff_ffff) by (nonlinear_arith)
        requires size <= 0xffff_ffff, 0 < factor.micros <= 0x7fff_ffff_ffff_ffff;
    let r: u128 = (2 * size as u128 * factor.micros as u128 + ONE as u128) / (2 * ONE as u128);
    if r > u32::MAX as u128 { u32::MAX } else { r as u32 }
}

/// Resamples every frame, nearest neighbour, to the first frame's size scaled
/// by `resize` and rounded. Frames of no pixels, or whose new buffers would
/// not fit in memory, are left as they are.
pub fn resize(frames: &mut Vec<Frame>, resize: Resize)
    requires
        same_size(views(old(frames)@)),
    ensures
        ({
            let s = views(old(frames)@);
            let out = views(final(frames)@);
            if s.len() == 0 {
                out.len() == 0
            } else {
                let w = s[0].width;
                let h = s[0].height;
                let nw = scaled_size(w, resize.scale_spec().x.micros as int);
                let nh = scaled_size(h, resize.scale_spec().y.micros as int);
                &&& resample_fits(w, h, nw, nh) ==> out == s.map_values(|f: FrameView| resized_frame(f, nw, nh))
                &&& !resample_fits(w, h, nw, nh) ==> out == s
                &&& nw == w && nh == h ==> out == s
            }
        }),
        resize.scale_spec().x.micros == ONE && resize.scale_spec().y.micros == ONE
            ==> views(final(frames)@) == views(old(frames)@),
        same_size(views(final(frames)@)),
{
    let ghost s = views(frames@);
    if frames.len() == 0 {
        return;
    }
    let w = frames[0].width;
    let h = frames[0].height;
    proof {
        lemma_scale_by_one(w as nat);
        lemma_scale_by_one(h as nat);
    }
    let scale = resize.scale();
    let nw = scale_size(w, scale.x);
    let nh = scale_size(h, scale.y);
    assert(nw as u128 * nh as u128 <= 0xffff_ffff * 0xffff_ffff && w as u128 * nh as u128 <= 0xffff_ffff * 0xffff_ffff) by (nonlinear_arith)
        requires nw <= 0xffff_ffff, nh <= 0xffff_ffff, w <= 0xffff_ffff;
    if w == 0 || h == 0 || nw as u128 * nh as u128 * 4 > usize::MAX as u128 || w as u128 * nh as u128 * 4 > usize::MAX as u128 {
        return;
    }
    let mut rest = take_reversed(frames);
    let n = rest.len();
    let ghost target = s.map_values(|f: FrameView| resized_frame(f, nw as nat, nh as nat));
    assert(views(rest@).len() == rest@.len());
    while rest.len() > 0
        invariant
            n == s.len(),
            w >= 1,
            h >= 1,
            uniform(s, w as nat, h as nat),
            resample_fits(w as nat, h as nat, nw as nat, nh as nat),
            target == s.map_values(|f: FrameView| resized_frame(f, nw as nat, nh as nat)),
            rest@.len() <= n,
            views(rest@) == rev(s).take(rest@.len() as int),
            views(frames@) == target.take(n - rest@.len()),
            nw == w && nh == h ==> views(frames@) == s.take(n - rest@.len()),
            forall|i: int| 0 <= i < frames@.len() ==> (#[trigger] views(frames@)[i]).wf(),
        decreases rest.len(),
    {
        let ghost before_r = rest@;
        let ghost before_f = frames@;
        let mut f = rest.pop().unwrap();
        proof {
            assert(views(before_r)[before_r.len() - 1] == f@);
            assert(f@ == s[n - before_r.len()]);
        }
        let data = resize_nearest(&f.data, w, h, nw, nh);
        f.data = data;
        f.width = nw;
        f.height = nh;
        frames.push(f);
        proof {
            lemma_views_push(before_f, f);
            assert(views(before_r.drop_last()) =~= views(before_r).drop_last());
            assert(views(rest@) =~= rev(s).take(rest@.len() as int));
            assert(views(frames@) =~= target.take(n - rest@.len()));
            if nw == w && nh == h {
                assert(views(frames@) =~= s.take(n - rest@.len()));
            }
        }
    }
    proof {
        assert(target.take(n as int) =~= target);
        assert(s.take(n as int) =~= s);
        assert(uniform(views(frames@), nw as nat, nh as nat));
    }
}

/// A factor of one keeps a size.
pub proof fn lemma_scale_by_one(size: nat)
    requires
        size <= u32::MAX,
    ensures
        scaled_size(size, ONE as int) == size,
{
    assert(2 * size * ONE + ONE == size * (2 * ONE) + ONE) by (nonlinear_arith);
    vstd::arithmetic::div_mod::lemma_fundamental_div_mod_converse(2 * size * ONE + ONE, 2 * ONE, size as int, ONE as int);
}

/// Scaling by `m` and then by its inverse `m2` (`m * m2 == ONE * ONE`) gives
/// back the size it started from, where the first scaling is exact.
pub proof fn lemma_inverse_scale(size: nat, m: int, m2: int)
    requires
        m > 0,
        m * m2 == ONE * ONE,
        (size * m) % (ONE as int) == 0,
        size <= u32::MAX,
        (size * m) / (ONE as int) <= u32::MAX,
    ensures
        scaled_size(scaled_size(size, m), m2) == size,
{
    let k = (size * m) / (ONE as int);
    vstd::arithmetic::div_mod::lemma_fundamental_div_mod(size * m, ONE as int);
    assert(size * m == ONE * k);
    assert(m2 > 0) by (nonlinear_arith) requires m > 0, m * m2 == ONE * ONE;
    assert(2 * size * m + ONE == k * (2 * ONE) + ONE) by (nonlinear_arith)
        requires size * m == ONE * k;
    vstd::arithmetic::div_mod::lemma_fundamental_div_mod_converse(2 * size * m + ONE, 2 * ONE, k, ONE as int);
    assert(scaled_size(size, m) == k);
    assert(k * m2 == size * ONE) by (nonlinear_arith)
        requires size * m == ONE * k, m * m2 == ONE * ONE, m > 0;
    assert(2 * k * m2 + ONE == size * (2 * ONE) + ONE) by (nonlinear_arith)
        requires k * m2 == size * ONE;
    vstd::arithmetic::div_mod::lemma_fundamental_div_mod_converse(2 * k * m2 + ONE, 2 * ONE, size as int, ONE as int);
}

} // verus!
