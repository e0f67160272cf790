use vstd::prelude::*;
use crate::frame::{Frame, FrameView};

verus! {

/// A rearrangement of the pixels of an image, each output pixel taken from
/// one source pixel.
#[derive(Clone, Copy, PartialEq, Eq, Structural, Debug)]
pub enum PixelMap {
    /// Left to right.
    MirrorX,
    /// Top to bottom.
    MirrorY,
    /// Each row turned right by `n` pixels, wrapping round.
    RowsRight(u32),
    /// Each row turned left by `n` pixels, wrapping round.
    RowsLeft(u32),
}

/// The 4 bytes of pixel `p`, counting row by row.
pub open spec fn pixel(data: Seq<u8>, p: int) -> Seq<u8> {
    data.subrange(4 * p, 4 * p + 4)
}

/// The source of pixel `p` of a `w` by `h` image under `m`.
pub open spec fn source_of(m: PixelMap, w: nat, h: nat, p: int) -> int {
    let x = p % (w as int);
    let y = p / (w as int);
    match m {
        PixelMap::MirrorX => y * w + (w - 1 - x),
        PixelMap::MirrorY => (h - 1 - y) * w + x,
        PixelMap::RowsRight(n) => y * w + (x - n) % (w as int),
        PixelMap::RowsLeft(n) => y * w + (x + n) % (w as int),
    }
}

/// `out` is the `w` by `h` image `data` rearranged by `m`.
pub open spec fn remapped(out: Seq<u8>, data: Seq<u8>, w: nat, h: nat, m: PixelMap) -> bool {
    &&& out.len() == data.len()
    &&& forall|p: int| 0 <= p < w * h ==> #[trigger] pixel(out, p) == pixel(data, source_of(m, w, h, p))
}

/// Every source lies in the image.
pub proof fn lemma_source_in_range(m: PixelMap, w: nat, h: nat, p: int)
    requires
        0 <= p < w * h,
    ensures
        0 <= source_of(m, w, h, p) < w * h,
{
    let x = p % (w as int);
    let y = p / (w as int);
    vstd::arithmetic::div_mod::lemma_fundamental_div_mod(p, w as int);
    assert(w > 0) by (nonlinear_arith) requires 0 <= p < w * h;
    assert(0 <= y < h) by (nonlinear_arith)
        requires p == w * y + x, 0 <= x < w, 0 <= p < w * h;
    let x2: int = match m {
        PixelMap::MirrorX => w - 1 - x,
        PixelMap::MirrorY => x,
        PixelMap::RowsRight(n) => (x - n) % (w as int),
        PixelMap::RowsLeft(n) => (x + n) % (w as int),
    };
    let y2: int = match m {
        PixelMap::MirrorY => h - 1 - y,
        _ => y,
    };
    assert(0 <= x2 < w);
    assert(0 <= y2 < h);
    assert(source_of(m, w, h, p) == y2 * w + x2);
    assert(0 <= y2 * w + x2 < w * h) by (nonlinear_arith)
        requires 0 <= x2 < w, 0 <= y2 < h;
}

/// Two buffers of `n` pixels that agree on every pixel are equal.
pub proof fn lemma_pixels_equal(a: Seq<u8>, b: Seq<u8>, n: nat)
    requires
        a.len() == 4 * n,
        b.len() == 4 * n,
        forall|p: int| 0 <= p < n ==> #[trigger] pixel(a, p) == pixel(b, p),
    ensures
        a == b,
{
    assert forall|i: int| 0 <= i < a.len() implies a[i] == b[i] by {
        let p = i / 4;
        vstd::arithmetic::div_mod::lemma_fundamental_div_mod(i, 4);
        assert(pixel(a, p) == pixel(b, p));
        assert(pixel(a, p)[i - 4 * p] == a[i]);
        assert(pixel(b, p)[i - 4 * p] == b[i]);
    }
    assert(a =~= b);
}

/// The source pixel of `p` under `m`, computed.
fn source_pixel(m: PixelMap, w: u32, h: u32, p: usize) -> (r: usize)
    requires
        w >= 1,
        p < w as nat * h as nat,
        w as nat * h as nat * 4 <= usize::MAX,
    ensures
        r == source_of(m, w as nat, h as nat, p as int),
{
    let w64 = w as u64;
    let x = (p as u64) % w64;
    let y = (p as u64) / w64;
    proof {
        lemma_source_in_range(m, w as nat, h as nat, p as int);
        vstd::arithmetic::div_mod::lemma_fundamental_div_mod(p as int, w as int);
        assert(y < h) by (nonlinear_arith)
            requires p == w * y + x, 0 <= x < w, p < w * h;
        assert(y * w + w <= w * h) by (nonlinear_arith)
            requires y < h, w >= 1;
        assert((h - 1 - y) * w + w <= w * h) by (nonlinear_arith)
            requires y < h, w >= 1;
        assert(w as nat * h as nat <= 0xffff_ffff_ffff_ffff) by (nonlinear_arith)
            requires w <= 0xffff_ffff, h <= 0xffff_ffff;
    }
    let r = match m {
        PixelMap::MirrorX => y * w64 + (w64 - 1 - x),
        PixelMap::MirrorY => (h as u64 - 1 - y) * w64 + x,
        PixelMap::RowsRight(n) => {
            let nr = (n as u64) % w64;
            let x2 = if x >= nr { x - nr } else { x + w64 - nr };
            proof {
                vstd::arithmetic::div_mod::lemma_fundamental_div_mod(n as int, w as int);
                let q = (n as int) / (w as int);
                let k: int = if x >= nr { -q } else { -q - 1 };
                assert(x - n == k * w + x2) by (nonlinear_arith)
                    requires
                        n == w * q + nr,
                        k == (if x >= nr { -q } else { -q - 1 }),
                        x2 == (if x >= nr { x - nr } else { x + w - nr });
                vstd::arithmetic::div_mod::lemma_fundamental_div_mod_converse(x - n, w as int, k, x2 as int);
            }
            y * w64 + x2
        },
        PixelMap::RowsLeft(n) => {
            let nr = (n as u64) % w64;
            let x2 = if x + nr < w64 { x + nr } else { x + nr - w64 };
            proof {
                vstd::arithmetic::div_mod::lemma_fundamental_div_mod(n as int, w as int);
                let q = (n as int) / (w as int);
                let k: int = if x + nr < w { q } else { q + 1 };
                assert(x + n == k * w + x2) by (nonlinear_arith)
                    requires
                        n == w * q + nr,
                        k == (if x + nr < w { q } else { q + 1 }),
                        x2 == (if x + nr < w { x + nr } else { x + nr - w });
                vstd::arithmetic::div_mod::lemma_fundamental_div_mod_converse(x + n, w as int, k, x2 as int);
            }
            y * w64 + x2
        },
    };
    r as usize
}

/// The `w` by `h` image `data` rearranged by `m`.
pub fn remap(data: &Vec<u8>, w: u32, h: u32, m: PixelMap) -> (r: Vec<u8>)
    requires
        data@.len() == w as nat * h as nat * 4,
    ensures
        remapped(r@, data@, w as nat, h as nat, m),
{
    let ghost n = w as nat * h as nat;
    let mut out: Vec<u8> = Vec::new();
    if w == 0 || h == 0 {
        assert(n == 0) by (nonlinear_arith) requires n == w * h, w == 0 || h == 0;
        return out;
    }
    let count = data.len() / 4;
    assert(n * 4 <= usize::MAX);
    let mut p: usize = 0;
    while p < count
        invariant
            count == n,
            data@.len() == 4 * n,
            n * 4 <= usize::MAX,
            w >= 1,
            n == w as nat * h as nat,
            p <= count,
            out@.len() == 4 * p,
            forall|q: int| 0 <= q < p ==> #[trigger] pixel(out@, q) == pixel(data@, source_of(m, w as nat, h as nat, q)),
        decreases count - p,
    {
        let s = source_pixel(m, w, h, p);
        proof {
            lemma_source_in_range(m, w as nat, h as nat, p as int);
        }
        let ghost before = out@;
        out.push(data[4 * s]);
        out.push(data[4 * s + 1]);
        out.push(data[4 * s + 2]);
        out.push(data[4 * s + 3]);
        proof {
            assert forall|q: int| 0 <= q < p + 1 implies #[trigger] pixel(out@, q) == pixel(data@, source_of(m, w as nat, h as nat, q)) by {
                if q < p {
                    assert(pixel(out@, q) =~= pixel(before, q));
                } else {
                    assert(pixel(out@, q) =~= pixel(data@, s as int));
                }
            }
        }
        p = p + 1;
    }
    out
}

/// Each frame of `out` is the frame of `inp` at its place, with its pixels
/// rearranged by `m(i)`.
pub open spec fn frames_remapped(out: Seq<FrameView>, inp: Seq<FrameView>, m: spec_fn(int) -> PixelMap) -> bool {
    &&& out.len() == inp.len()
    &&& forall|i: int| 0 <= i < inp.len() ==> {
        &&& #[trigger] out[i] == inp[i].with_data(out[i].data)
        &&& remapped(out[i].data, inp[i].data, inp[i].width, inp[i].height, m(i))
    }
}

/// The frame with its pixels rearranged by `m`.
pub fn remap_frame(f: Frame, m: PixelMap) -> (r: Frame)
    requires
        f@.wf(),
    ensures
        r@ == f@.with_data(r@.data),
        remapped(r@.data, f@.data, f@.width, f@.height, m),
        r@.wf(),
{
    let data = remap(&f.data, f.width, f.height, m);
    Frame { data, ..f }
}

} // verus!
