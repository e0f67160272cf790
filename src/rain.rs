use vstd::prelude::*;
use crate::align::{align_gif, align_outcome, lemma_alignment_uniform};
use crate::frame::{Frame, FrameView, views, take_reversed, rev, lemma_views_push, delay_millis, get_delay_centisecs, same_size, uniform};
use crate::pixels::pixel;
use crate::rng::{Rng, next_state, output_of, get_random_below};

verus! {

/// The palette of the drops.
#[derive(Clone, Copy, PartialEq, Eq, Structural, Debug)]
pub enum RainType {
    Regular,
    Glitter,
}

impl RainType {
    /// `0` is regular rain; any other value glitter.
    pub fn from_param(value: u8) -> (r: RainType)
        ensures
            r == (if value == 0 { RainType::Regular } else { RainType::Glitter }),
    {
        if value == 0 {
            RainType::Regular
        } else {
            RainType::Glitter
        }
    }
}

/// One falling drop: where it is, how fast it falls, its length and width in
/// pixels, and its color.
pub struct Drop {
    pub width: u32,
    pub height: u32,
    pub delay: u32,
    pub x: u32,
    pub y: u32,
    pub speed: u64,
    pub len: u32,
    pub size: u32,
    pub r: u8,
    pub g: u8,
    pub b: u8,
}

/// The speed, length and width of a drop drawn from 32 random bits `x`, read
/// as the fraction `x / 2^32`: `delay` plus that fraction of it, one to five
/// pixels, one or two pixels.
pub open spec fn drop_params(x: u32, delay: u32) -> (u64, u32, u32) {
    (
        (delay as nat + (x as nat * delay as nat) / 0x1_0000_0000nat) as u64,
        (1 + (x as nat * 5) / 0x1_0000_0000nat) as u32,
        (1 + (x as nat * 2) / 0x1_0000_0000nat) as u32,
    )
}

/// The generator state `k` steps after `s`.
pub open spec fn state_after(s: u64, k: nat) -> u64
    decreases k,
{
    if k == 0 { s } else { next_state(state_after(s, (k - 1) as nat)) }
}

/// A draw below `bound` from the step into state `s`, zero where there is no room.
pub open spec fn draw_below(s: u64, bound: u32) -> u32 {
    if bound == 0 { 0 } else { (output_of(s) as int % bound as int) as u32 }
}

/// The color of a regular drop.
pub open spec fn regular_color() -> Seq<u8> {
    seq![0u8, 120, 255, 255]
}

/// Generator steps that a new drop takes: x, y, sizes, and for glitter a color.
pub open spec fn draw_steps(ty: RainType) -> nat {
    if ty == RainType::Glitter { 6 } else { 3 }
}

/// The drop that `Drop::new` draws from generator state `s`.
pub open spec fn new_drop(w: u32, h: u32, delay: u32, ty: RainType, s: u64) -> Drop {
    let p = drop_params(output_of(state_after(s, 3)), delay);
    Drop {
        width: w,
        height: h,
        delay,
        x: draw_below(state_after(s, 1), w),
        y: draw_below(state_after(s, 2), h),
        speed: p.0,
        len: p.1,
        size: p.2,
        r: if ty == RainType::Glitter { draw_below(state_after(s, 4), 256) as u8 } else { 0 },
        g: if ty == RainType::Glitter { draw_below(state_after(s, 5), 256) as u8 } else { 120 },
        b: if ty == RainType::Glitter { draw_below(state_after(s, 6), 256) as u8 } else { 255 },
    }
}

/// The drops that `create_drops` draws from generator state `s`: drop `k`
/// from the state `k * draw_steps(ty)` steps on.
pub open spec fn created(w: u32, h: u32, delay: u32, ty: RainType, s: u64) -> Seq<Drop> {
    Seq::new((w as nat + h as nat) / 5, |k: int| new_drop(w, h, delay, ty, state_after(s, (k * draw_steps(ty)) as nat)))
}

/// Drop `d` after one fall from generator state `s`, and the state after it:
/// down by its speed, or, past the bottom, back at the top with a new speed,
/// length and width.
pub open spec fn fallen(d: Drop, s: u64) -> (Drop, u64) {
    let y2 = d.y as nat + d.speed as nat;
    if y2 > d.height {
        let s2 = next_state(s);
        let p = drop_params(output_of(s2), d.delay);
        (Drop { y: 0, speed: p.0, len: p.1, size: p.2, ..d }, s2)
    } else {
        (Drop { y: y2 as u32, ..d }, s)
    }
}

/// Every drop after one fall each, in order, from generator state `s`, and
/// the state after them.
pub open spec fn fall_all(drops: Seq<Drop>, s: u64) -> (Seq<Drop>, u64)
    decreases drops.len(),
{
    if drops.len() == 0 {
        (Seq::empty(), s)
    } else {
        let (ds, st) = fall_all(drops.drop_last(), s);
        let (d, st2) = fallen(drops.last(), st);
        (ds.push(d), st2)
    }
}

/// `k` more steps after `a` steps are `a + k` steps.
pub proof fn lemma_state_after_add(s: u64, a: nat, k: nat)
    ensures
        state_after(state_after(s, a), k) == state_after(s, a + k),
    decreases k,
{
    if k > 0 {
        lemma_state_after_add(s, a, (k - 1) as nat);
    }
}

impl Drop {
    /// The drop belongs to a frame of `w` by `h` pixels and has a color of its
    /// palette.
    pub open spec fn wf(&self, w: u32, h: u32, ty: RainType) -> bool {
        &&& self.width == w
        &&& self.height == h
        &&& ty == RainType::Regular ==> self.r == 0 && self.g == 120 && self.b == 255
    }

    /// A drop at a random place of a `width` by `height` frame, with random
    /// speed, length and width; blue for regular rain, of a random color for
    /// glitter. Draws, in order: x, y, the speed and sizes, then the color.
    pub fn new(width: u32, height: u32, delay: u32, rain_type: RainType, rng: &mut Rng) -> (d: Drop)
        ensures
            d == new_drop(width, height, delay, rain_type, old(rng).state),
            d.wf(width, height, rain_type),
            final(rng).state == state_after(old(rng).state, draw_steps(rain_type)),
    {
        let ghost s0 = rng.state;
        proof {
            assert(state_after(s0, 0) == s0);
            assert(state_after(s0, 1) == next_state(s0));
        }
        let x = draw(rng, width);
        proof {
            assert(state_after(s0, 2) == next_state(state_after(s0, 1)));
        }
        let y = draw(rng, height);
        proof {
            assert(state_after(s0, 3) == next_state(state_after(s0, 2)));
        }
        let (speed, len, size) = Self::reset_drop_static(delay, rng);
        let (r, g, b) = draw_color(rain_type, rng);
        proof {
            assert(state_after(s0, 4) == next_state(state_after(s0, 3)));
            assert(state_after(s0, 5) == next_state(state_after(s0, 4)));
            assert(state_after(s0, 6) == next_state(state_after(s0, 5)));
        }
        Drop { width, height, delay, x, y, speed, len, size, r, g, b }
    }

    /// Draws a speed, length and width for a drop falling at `delay`.
    fn reset_drop_static(delay: u32, rng: &mut Rng) -> (r: (u64, u32, u32))
        ensures
            final(rng).state == next_state(old(rng).state),
            r == drop_params(output_of(final(rng).state), delay),
    {
        let x = rng.next_u32() as u64;
        let d = delay as u64;
        assert(x * d <= 0xffff_ffff * 0xffff_ffff) by (nonlinear_arith)
            requires x <= 0xffff_ffff, d <= 0xffff_ffff;
        let speed = d + (x * d) / 0x1_0000_0000u64;
        let len = (1 + (x * 5) / 0x1_0000_0000u64) as u32;
        let size = (1 + (x * 2) / 0x1_0000_0000u64) as u32;
        (speed, len, size)
    }

    /// Draws a new speed, length and width.
    pub fn reset_drop(&mut self, rng: &mut Rng)
        ensures
            final(rng).state == next_state(old(rng).state),
            (final(self).speed, final(self).len, final(self).size) == drop_params(output_of(final(rng).state), old(self).delay),
            final(self).x == old(self).x,
            final(self).y == old(self).y,
            final(self).width == old(self).width,
            final(self).height == old(self).height,
            final(self).delay == old(self).delay,
            final(self).r == old(self).r,
            final(self).g == old(self).g,
            final(self).b == old(self).b,
    {
        let (speed, len, size) = Self::reset_drop_static(self.delay, rng);
        self.speed = speed;
        self.len = len;
        self.size = size;
    }

    /// Moves the drop down by its speed; past the bottom it starts again at
    /// the top with a new speed, length and width.
    pub fn fall(&mut self, rng: &mut Rng)
        ensures
            (*final(self), final(rng).state) == fallen(*old(self), old(rng).state),
    {
        if self.speed > self.height as u64 {
            self.y = 0;
            self.reset_drop(rng);
        } else {
            let y2 = self.y as u64 + self.speed;
            if y2 > self.height as u64 {
                self.y = 0;
                self.reset_drop(rng);
            } else {
                self.y = y2 as u32;
            }
        }
    }
}

/// The color of a new drop: blue for regular rain; three random channels,
/// red first, for glitter.
fn draw_color(ty: RainType, rng: &mut Rng) -> (c: (u8, u8, u8))
    ensures
        ty == RainType::Regular ==> c == (0u8, 120u8, 255u8) && final(rng).state == old(rng).state,
        ty == RainType::Glitter ==> {
            &&& c.0 == draw_below(next_state(old(rng).state), 256)
            &&& c.1 == draw_below(next_state(next_state(old(rng).state)), 256)
            &&& c.2 == draw_below(next_state(next_state(next_state(old(rng).state))), 256)
            &&& final(rng).state == next_state(next_state(next_state(old(rng).state)))
        },
{
    match ty {
        RainType::Glitter => {
            let r = draw(rng, 256) as u8;
            let g = draw(rng, 256) as u8;
            let b = draw(rng, 256) as u8;
            (r, g, b)
        },
        RainType::Regular => (0, 120, 255),
    }
}

/// A draw below `bound`, or zero where there is no room.
fn draw(rng: &mut Rng, bound: u32) -> (r: u32)
    ensures
        final(rng).state == next_state(old(rng).state),
        r == draw_below(final(rng).state, bound),
        bound > 0 ==> r < bound,
{
    if bound == 0 {
        rng.next_u32();
        0
    } else {
        get_random_below(rng, bound as usize) as u32
    }
}

/// Every drop fits a `w` by `h` frame and has a color of the palette.
pub open spec fn drops_wf(drops: Seq<Drop>, w: u32, h: u32, ty: RainType) -> bool {
    forall|k: int| 0 <= k < drops.len() ==> (#[trigger] drops[k]).wf(w, h, ty)
}

/// A pixel a drop may leave: opaque, and blue for regular rain.
pub open spec fn drop_color(c: Seq<u8>, ty: RainType) -> bool {
    &&& c.len() == 4
    &&& c[3] == 255
    &&& ty == RainType::Regular ==> c == regular_color()
}

/// `out` is `data` with some of its `n` pixels painted over by drops.
pub open spec fn rained(out: Seq<u8>, data: Seq<u8>, n: nat, ty: RainType) -> bool {
    &&& out.len() == data.len()
    &&& forall|p: int| 0 <= p < n ==> #[trigger] pixel(out, p) == pixel(data, p) || drop_color(pixel(out, p), ty)
}

/// `out` is `s` rained over from generator state `seed`: the drops are drawn
/// first, then under twelve frames are aligned to twelve, then every drop is
/// painted over each frame in turn, falling once after each.
pub open spec fn rained_frames(out: Seq<FrameView>, s: Seq<FrameView>, ty: RainType, seed: u64) -> bool {
    &&& s.len() == 0 ==> out.len() == 0
    &&& s.len() > 0 ==> exists|a: Seq<FrameView>, ds: Seq<Seq<Drop>>, st: Seq<u64>| #![auto]
        (if s.len() < 12 { align_outcome(a, s, 12) } else { a == s })
        && out.len() == a.len()
        && ds.len() == a.len()
        && st.len() == a.len()
        && ds[0] == created(s[0].width as u32, s[0].height as u32, rain_delay(s[0].delay), ty, seed)
        && (forall|i: int| 0 <= i < a.len() - 1 ==> (ds[i + 1], st[i + 1]) == fall_all(#[trigger] ds[i], st[i]))
        && forall|i: int| 0 <= i < a.len() ==> {
            &&& #[trigger] out[i] == a[i].with_data(out[i].data)
            &&& out[i].data == paint_all(a[i].data, a[i].width, ds[i], ds[i].len())
            &&& rained(out[i].data, a[i].data, a[i].width * a[i].height, ty)
        }
}

/// The fall of the drops per frame: the frame's whole centiseconds, at most `u32::MAX`.
pub open spec fn rain_delay(d: crate::frame::Delay) -> u32 {
    if delay_millis(d) / 10 > u32::MAX { u32::MAX } else { (delay_millis(d) / 10) as u32 }
}

/// `(w + h) / 5` new drops for a `w` by `h` frame.
pub fn create_drops(width: u32, height: u32, rain_type: RainType, delay: u32, rng: &mut Rng) -> (r: Vec<Drop>)
    ensures
        r@ == created(width, height, delay, rain_type, old(rng).state),
        r@.len() == (width as nat + height as nat) / 5,
        drops_wf(r@, width, height, rain_type),
        final(rng).state == state_after(old(rng).state, r@.len() * draw_steps(rain_type)),
{
    let ghost s0 = rng.state;
    let ghost n = draw_steps(rain_type);
    let amount: u64 = (width as u64 + height as u64) / 5;
    let mut r: Vec<Drop> = Vec::new();
    let mut k: u64 = 0;
    while k < amount
        invariant
            k <= amount,
            amount == (width as nat + height as nat) / 5,
            n == draw_steps(rain_type),
            r@.len() == k,
            drops_wf(r@, width, height, rain_type),
            rng.state == state_after(s0, (k * n) as nat),
            r@ == created(width, height, delay, rain_type, s0).take(k as int),
        decreases amount - k,
    {
        let ghost before = r@;
        let d = Drop::new(width, height, delay, rain_type, rng);
        r.push(d);
        proof {
            lemma_state_after_add(s0, (k * n) as nat, n);
            assert(k * n + n == (k + 1) * n) by (nonlinear_arith);
            assert(r@ =~= created(width, height, delay, rain_type, s0).take(k + 1));
        }
        k = k + 1;
    }
    assert(r@ =~= created(width, height, delay, rain_type, s0));
    r
}

/// Paints pixel `(x, y)` of a `w` pixel wide buffer with an opaque color.
fn put_pixel(data: &mut Vec<u8>, w: u32, h: u32, x: u32, y: u32, r: u8, g: u8, b: u8)
    requires
        old(data)@.len() == w as nat * h as nat * 4,
        x < w,
        y < h,
    ensures
        final(data)@.len() == old(data)@.len(),
        pixel(final(data)@, y * w + x) == seq![r, g, b, 255u8],
        forall|p: int| 0 <= p < w * h && p != y * w + x ==> #[trigger] pixel(final(data)@, p) == pixel(old(data)@, p),
{
    proof {
        assert((y * w + x) * 4 + 4 <= w * h * 4) by (nonlinear_arith)
            requires x < w, y < h;
    }
    let dl = data.len();
    assert((y * w + x) * 4 + 4 <= dl);
    assert(y * w <= (y * w + x) * 4);
    let i = (y as usize * w as usize + x as usize) * 4;
    data.set(i, r);
    data.set(i + 1, g);
    data.set(i + 2, b);
    data.set(i + 3, 255);
    let ghost q = y * w + x;
    assert(pixel(data@, q) =~= seq![r, g, b, 255u8]);
    assert forall|p: int| 0 <= p < w * h && p != q implies #[trigger] pixel(data@, p) == pixel(old(data)@, p) by {
        assert(pixel(data@, p) =~= pixel(old(data)@, p));
    }
}

/// Pixel `(x, y)` lies under drop `d`, within its frame.
pub open spec fn drop_covers(d: Drop, x: int, y: int) -> bool {
    &&& d.x <= x < d.x + d.size
    &&& d.y <= y < d.y + d.len
    &&& x < d.width
    &&& y < d.height
}

/// The opaque color of a drop.
pub open spec fn drop_rgba(d: Drop) -> Seq<u8> {
    seq![d.r, d.g, d.b, 255u8]
}

/// The `w` pixel wide buffer `data` with drop `d` painted over it.
pub open spec fn paint(data: Seq<u8>, w: nat, d: Drop) -> Seq<u8> {
    Seq::new(data.len(), |i: int| {
        let p = i / 4;
        if w > 0 && drop_covers(d, p % (w as int), p / (w as int)) { drop_rgba(d)[i % 4] } else { data[i] }
    })
}

/// `data` with the first `k` drops painted over it, in order.
pub open spec fn paint_all(data: Seq<u8>, w: nat, drops: Seq<Drop>, k: nat) -> Seq<u8>
    decreases k,
{
    if k == 0 || k > drops.len() {
        data
    } else {
        paint(paint_all(data, w, drops, (k - 1) as nat), w, drops[k - 1])
    }
}

/// Pixel `p` after painting drop `d`.
proof fn lemma_paint_pixel(data: Seq<u8>, w: nat, h: nat, d: Drop, p: int)
    requires
        data.len() == w * h * 4,
        0 <= p < w * h,
    ensures
        pixel(paint(data, w, d), p) == if drop_covers(d, p % (w as int), p / (w as int)) { drop_rgba(d) } else { pixel(data, p) },
{
    assert(w > 0) by (nonlinear_arith) requires 0 <= p < w * h;
    assert(4 * p + 4 <= data.len()) by (nonlinear_arith) requires 0 <= p < w * h, data.len() == w * h * 4;
    vstd::arithmetic::div_mod::lemma_fundamental_div_mod_converse(4 * p, 4, p, 0);
    vstd::arithmetic::div_mod::lemma_fundamental_div_mod_converse(4 * p + 1, 4, p, 1);
    vstd::arithmetic::div_mod::lemma_fundamental_div_mod_converse(4 * p + 2, 4, p, 2);
    vstd::arithmetic::div_mod::lemma_fundamental_div_mod_converse(4 * p + 3, 4, p, 3);
    if drop_covers(d, p % (w as int), p / (w as int)) {
        assert(pixel(paint(data, w, d), p) =~= drop_rgba(d));
    } else {
        assert(pixel(paint(data, w, d), p) =~= pixel(data, p));
    }
}

/// The part of drop `d` painted after its first `i` rows and `j` more pixels.
spec fn covered_so_far(d: Drop, i: int, j: int, x: int, y: int) -> bool {
    &&& x < d.width
    &&& y < d.height
    &&& d.x <= x < d.x + d.size
    &&& (d.y <= y < d.y + i || (y == d.y + i && x < d.x + j))
}

/// Paints drop `d` onto the `w` by `h` buffer.
fn paint_drop(d: &Drop, data: &mut Vec<u8>, w: u32, h: u32)
    requires
        old(data)@.len() == w as nat * h as nat * 4,
        d.width == w,
        d.height == h,
    ensures
        final(data)@ == paint(old(data)@, w as nat, *d),
{
    let ghost start = data@;
    let mut i: u32 = 0;
    while i < d.len
        invariant
            data@.len() == w as nat * h as nat * 4,
            d.width == w,
            d.height == h,
            i <= d.len,
            forall|p: int| 0 <= p < w * h ==> #[trigger] pixel(data@, p) == if covered_so_far(*d, i as int, 0, p % (w as int), p / (w as int)) {
                drop_rgba(*d)
            } else {
                pixel(start, p)
            },
        decreases d.len - i,
    {
        let mut j: u32 = 0;
        while j < d.size
            invariant
                data@.len() == w as nat * h as nat * 4,
                d.width == w,
                d.height == h,
                i < d.len,
                j <= d.size,
                forall|p: int| 0 <= p < w * h ==> #[trigger] pixel(data@, p) == if covered_so_far(*d, i as int, j as int, p % (w as int), p / (w as int)) {
                    drop_rgba(*d)
                } else {
                    pixel(start, p)
                },
            decreases d.size - j,
        {
            let x = d.x as u64 + j as u64;
            let y = d.y as u64 + i as u64;
            let ghost before = data@;
            if x < w as u64 && y < h as u64 {
                put_pixel(data, w, h, x as u32, y as u32, d.r, d.g, d.b);
            }
            proof {
                assert forall|p: int| 0 <= p < w * h implies #[trigger] pixel(data@, p) == if covered_so_far(*d, i as int, j + 1, p % (w as int), p / (w as int)) {
                    drop_rgba(*d)
                } else {
                    pixel(start, p)
                } by {
                    assert(w > 0) by (nonlinear_arith) requires 0 <= p < w * h;
                    let px = p % (w as int);
                    let py = p / (w as int);
                    vstd::arithmetic::div_mod::lemma_fundamental_div_mod(p, w as int);
                    assert(p == py * w + px) by (nonlinear_arith) requires p == w * py + px;
                    if x < w && y < h {
                        if p == y * w + x {
                            vstd::arithmetic::div_mod::lemma_fundamental_div_mod_converse(p, w as int, y as int, x as int);
                        } else {
                            assert(pixel(data@, p) == pixel(before, p));
                            assert(px != x || py != y);
                        }
                    }
                }
            }
            j = j + 1;
        }
        proof {
            assert forall|p: int| 0 <= p < w * h implies #[trigger] pixel(data@, p) == if covered_so_far(*d, i + 1, 0, p % (w as int), p / (w as int)) {
                drop_rgba(*d)
            } else {
                pixel(start, p)
            } by {
                let px = p % (w as int);
                let py = p / (w as int);
                assert(covered_so_far(*d, i as int, d.size as int, px, py) == covered_so_far(*d, i + 1, 0, px, py));
            }
        }
        i = i + 1;
    }
    proof {
        assert forall|p: int| 0 <= p < w * h implies #[trigger] pixel(data@, p) == pixel(paint(start, w as nat, *d), p) by {
            lemma_paint_pixel(start, w as nat, h as nat, *d, p);
            let px = p % (w as int);
            let py = p / (w as int);
            assert(covered_so_far(*d, d.len as int, 0, px, py) == drop_covers(*d, px, py));
        }
        assert(w * h * 4 == 4 * (w * h)) by (nonlinear_arith);
        crate::pixels::lemma_pixels_equal(data@, paint(start, w as nat, *d), w as nat * h as nat);
    }
}

/// Paints every drop onto the buffer, in order, then lets each fall.
pub fn write_drops(drops: &mut Vec<Drop>, data: &mut Vec<u8>, w: u32, h: u32, ty: RainType, rng: &mut Rng)
    requires
        old(data)@.len() == w as nat * h as nat * 4,
        drops_wf(old(drops)@, w, h, ty),
    ensures
        final(data)@ == paint_all(old(data)@, w as nat, old(drops)@, old(drops)@.len()),
        rained(final(data)@, old(data)@, w as nat * h as nat, ty),
        drops_wf(final(drops)@, w, h, ty),
        final(drops)@.len() == old(drops)@.len(),
        (final(drops)@, final(rng).state) == fall_all(old(drops)@, old(rng).state),
{
    let ghost start = data@;
    let ghost first = drops@;
    let ghost s0 = rng.state;
    let mut k: usize = 0;
    while k < drops.len()
        invariant
            k <= drops@.len(),
            drops@.len() == first.len(),
            (drops@.take(k as int), rng.state) == fall_all(first.take(k as int), s0),
            data@.len() == w as nat * h as nat * 4,
            drops_wf(drops@, w, h, ty),
            forall|m: int| k <= m < drops@.len() ==> #[trigger] drops@[m] == first[m],
            data@ == paint_all(start, w as nat, first, k as nat),
            rained(data@, start, w as nat * h as nat, ty),
        decreases drops@.len() - k,
    {
        let ghost before = data@;
        assert(drops@[k as int].wf(w, h, ty));
        paint_drop(&drops[k], data, w, h);
        proof {
            let d = first[k as int];
            assert(paint_all(start, w as nat, first, (k + 1) as nat) == paint(before, w as nat, d));
            assert forall|p: int| 0 <= p < w * h implies #[trigger] pixel(data@, p) == pixel(start, p)
                || drop_color(pixel(data@, p), ty) by {
                lemma_paint_pixel(before, w as nat, h as nat, d, p);
            }
        }
        let ghost pre = drops@;
        let mut d = drops.remove(k);
        d.fall(rng);
        drops.insert(k, d);
        proof {
            assert forall|m: int| k < m < drops@.len() implies #[trigger] drops@[m] == first[m] by {}
            assert(first.take(k + 1).drop_last() =~= first.take(k as int));
            assert(first.take(k + 1).last() == first[k as int]);
            assert(pre[k as int] == first[k as int]);
            assert(drops@.take(k + 1) =~= pre.take(k as int).push(d));
        }
        k = k + 1;
    }
    assert(first.take(first.len() as int) =~= first);
    assert(drops@.take(drops@.len() as int) =~= drops@);
}

/// Rains over the frames: `(w + h) / 5` drops of random place, speed, length
/// and width fall through the frames, the same drops from frame to frame. A
/// sequence of under twelve frames is first aligned to twelve.
pub fn rain(frames: &mut Vec<Frame>, rain_type: RainType, rng: &mut Rng)
    requires
        same_size(views(old(frames)@)),
    ensures
        rained_frames(views(final(frames)@), views(old(frames)@), rain_type, old(rng).state),
        same_size(views(final(frames)@)),
{
    let ghost s = views(frames@);
    let ghost seed = rng.state;
    if frames.len() == 0 {
        return;
    }
    let w = frames[0].width;
    let h = frames[0].height;
    assert(s[0].delay == frames@[0].delay);
    let c = get_delay_centisecs(frames[0].delay);
    let cs: u32 = if c > u32::MAX as u64 { u32::MAX } else { c as u32 };
    let mut drops = create_drops(w, h, rain_type, cs, rng);
    let mut aligned = if frames.len() < 12 {
        align_gif(frames, 12, rng)
    } else {
        crate::frame::duplicate_all(frames)
    };
    let ghost a = views(aligned@);
    proof {
        if s.len() < 12 {
            lemma_alignment_uniform(a, s, 12, w as nat, h as nat);
        }
    }
    let mut rest = take_reversed(&mut aligned);
    let n = rest.len();
    let mut out: Vec<Frame> = Vec::new();
    let ghost mut ds: Seq<Seq<Drop>> = Seq::empty();
    let ghost mut st: Seq<u64> = Seq::empty();
    let ghost first_drops = drops@;
    assert(views(rest@).len() == rest@.len());
    while rest.len() > 0
        invariant
            n == a.len(),
            uniform(a, w as nat, h as nat),
            w == s[0].width,
            h == s[0].height,
            drops_wf(drops@, w, h, rain_type),
            drops@.len() == (w as nat + h as nat) / 5,
            ds.len() == out@.len(),
            st.len() == out@.len(),
            first_drops == created(w, h, cs, rain_type, seed),
            out@.len() == 0 ==> drops@ == first_drops,
            out@.len() > 0 ==> ds[0] == first_drops,
            out@.len() > 0 ==> (drops@, rng.state) == fall_all(ds[out@.len() - 1], st[out@.len() - 1]),
            forall|i: int| 0 <= i < out@.len() - 1 ==> (ds[i + 1], st[i + 1]) == fall_all(#[trigger] ds[i], st[i]),
            forall|i: int| 0 <= i < out@.len() ==> {
                &&& (#[trigger] ds[i]).len() == (w as nat + h as nat) / 5
                &&& drops_wf(ds[i], w, h, rain_type)
                &&& views(out@)[i].data == paint_all(a[i].data, a[i].width, ds[i], ds[i].len())
            },
            rest@.len() <= n,
            views(rest@) == rev(a).take(rest@.len() as int),
            out@.len() == n - rest@.len(),
            forall|i: int| 0 <= i < out@.len() ==> {
                &&& #[trigger] views(out@)[i] == a[i].with_data(views(out@)[i].data)
                &&& rained(views(out@)[i].data, a[i].data, a[i].width * a[i].height, rain_type)
                &&& views(out@)[i].wf()
            },
        decreases rest.len(),
    {
        let ghost before_r = rest@;
        let ghost before_o = out@;
        let mut f = rest.pop().unwrap();
        proof {
            assert(views(before_r)[before_r.len() - 1] == f@);
            assert(f@ == a[n - before_r.len()]);
        }
        proof {
            ds = ds.push(drops@);
            st = st.push(rng.state);
        }
        write_drops(&mut drops, &mut f.data, w, h, rain_type, rng);
        out.push(f);
        proof {
            lemma_views_push(before_o, f);
            assert(views(before_r.drop_last()) =~= views(before_r).drop_last());
            assert(views(rest@) =~= rev(a).take(rest@.len() as int));
        }
    }
    *frames = out;
    proof {
        assert(uniform(views(frames@), w as nat, h as nat));
        assert(cs == rain_delay(s[0].delay));
        assert(rained_frames(views(frames@), s, rain_type, seed)) by {
            if s.len() < 12 {
                assert(align_outcome(a, s, 12));
            }
        }
    }
}

} // verus!
