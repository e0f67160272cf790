use vstd::prelude::*;
use crate::frame::{Frame, FrameView, views, take_reversed, rev, lemma_views_push};
use crate::pixels::{PixelMap, remap_frame, frames_remapped, remapped, source_of, pixel, lemma_pixels_equal, lemma_source_in_range};

verus! {

/// The axis of a mirror.
#[derive(Clone, Copy, PartialEq, Eq, Structural, Debug)]
pub enum Direction {
    Horizontal,
    Vertical,
}

impl From<u8> for Direction {
    /// `0` mirrors left to right; any other value top to bottom.
    fn from(value: u8) -> (r: Direction) {
        if value == 0 {
            Direction::Horizontal
        } else {
            Direction::Vertical
        }
    }
}

impl vstd::std_specs::convert::FromSpecImpl<u8> for Direction {
    open spec fn obeys_from_spec() -> bool {
        true
    }

    open spec fn from_spec(v: u8) -> Direction {
        if v == 0 {
            Direction::Horizontal
        } else {
            Direction::Vertical
        }
    }
}

/// The rearrangement that a mirror along `d` makes.
pub open spec fn flip_map(d: Direction) -> PixelMap {
    match d {
        Direction::Horizontal => PixelMap::MirrorX,
        Direction::Vertical => PixelMap::MirrorY,
    }
}

/// Every frame is well formed.
pub open spec fn all_wf(s: Seq<FrameView>) -> bool {
    forall|i: int| 0 <= i < s.len() ==> (#[trigger] s[i]).wf()
}

/// Mirrors every frame, left to right or top to bottom.
pub fn flip(frames: &mut Vec<Frame>, direction: Direction)
    requires
        all_wf(views(old(frames)@)),
    ensures
        frames_remapped(views(final(frames)@), views(old(frames)@), |i: int| flip_map(direction)),
        all_wf(views(final(frames)@)),
{
    let m = match direction {
        Direction::Horizontal => PixelMap::MirrorX,
        Direction::Vertical => PixelMap::MirrorY,
    };
    let ghost start = views(frames@);
    let mut rest = take_reversed(frames);
    let n = rest.len();
    assert(views(rest@).len() == rest@.len());
    while rest.len() > 0
        invariant
            m == flip_map(direction),
            n == start.len(),
            all_wf(start),
            rest@.len() <= n,
            views(rest@) == rev(start).take(rest@.len() as int),
            frames@.len() == n - rest@.len(),
            forall|i: int| 0 <= i < frames@.len() ==> {
                &&& #[trigger] views(frames@)[i] == start[i].with_data(views(frames@)[i].data)
                &&& remapped(views(frames@)[i].data, start[i].data, start[i].width, start[i].height, m)
                &&& views(frames@)[i].wf()
            },
        decreases rest.len(),
    {
        let ghost before_r = rest@;
        let ghost before_f = frames@;
        let f = rest.pop().unwrap();
        proof {
            assert(views(before_r)[before_r.len() - 1] == f@);
            assert(f@ == start[n - before_r.len()]);
        }
        let g = remap_frame(f, m);
        frames.push(g);
        proof {
            lemma_views_push(before_f, g);
            assert(views(before_r.drop_last()) =~= views(before_r).drop_last());
            assert(views(rest@) =~= rev(start).take(rest@.len() as int));
        }
    }
}

proof fn lemma_mirror_involution(m: PixelMap, w: nat, h: nat, p: int)
    requires
        m == PixelMap::MirrorX || m == PixelMap::MirrorY,
        0 <= p < w * h,
    ensures
        source_of(m, w, h, source_of(m, w, h, p)) == p,
{
    let x = p % (w as int);
    let y = p / (w as int);
    vstd::arithmetic::div_mod::lemma_fundamental_div_mod(p, w as int);
    assert(w > 0) by (nonlinear_arith) requires 0 <= p < w * h;
    assert(0 <= y < h) by (nonlinear_arith)
        requires p == w * y + x, 0 <= x < w, 0 <= p < w * h;
    let q = source_of(m, w, h, p);
    let x2: int = if m == PixelMap::MirrorX { w - 1 - x } else { x };
    let y2: int = if m == PixelMap::MirrorX { y } else { h - 1 - y };
    assert(q == y2 * w + x2);
    vstd::arithmetic::div_mod::lemma_fundamental_div_mod_converse(q, w as int, y2, x2);
    assert(p == y * w + x) by (nonlinear_arith) requires p == w * y + x;
    assert(q % (w as int) == x2 && q / (w as int) == y2);
}

/// Mirroring twice along the same axis gives back the frames it started from.
pub proof fn lemma_flip_twice(a: Seq<FrameView>, b: Seq<FrameView>, c: Seq<FrameView>, d: Direction)
    requires
        all_wf(a),
        frames_remapped(b, a, |i: int| flip_map(d)),
        frames_remapped(c, b, |i: int| flip_map(d)),
    ensures
        c == a,
{
    assert forall|i: int| 0 <= i < a.len() implies c[i] == a[i] by {
        let m = flip_map(d);
        let w = a[i].width;
        let h = a[i].height;
        assert(b[i] == a[i].with_data(b[i].data));
        assert(c[i] == b[i].with_data(c[i].data));
        assert(remapped(b[i].data, a[i].data, w, h, m));
        assert(remapped(c[i].data, b[i].data, w, h, m));
        assert forall|p: int| 0 <= p < w * h implies #[trigger] pixel(c[i].data, p) == pixel(a[i].data, p) by {
            lemma_source_in_range(m, w, h, p);
            lemma_mirror_involution(m, w, h, p);
            assert(pixel(c[i].data, p) == pixel(b[i].data, source_of(m, w, h, p)));
        }
        assert(a[i].wf());
        assert(w * h * 4 == 4 * (w * h)) by (nonlinear_arith);
        lemma_pixels_equal(c[i].data, a[i].data, w * h);
    }
    assert(c =~= a);
}

} // verus!
