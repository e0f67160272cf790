use vstd::prelude::*;

verus! {

/// The RGBA buffer of `bw` by `bh` pixels that `image::imageops::overlay`
/// leaves after drawing the `tw` by `th` buffer `top` over `bottom`, with its
/// top left corner at `(x, y)`.
pub uninterp spec fn overlaid(bottom: Seq<u8>, bw: nat, bh: nat, top: Seq<u8>, tw: nat, th: nat, x: int, y: int) -> Seq<u8>;

/// The RGBA buffer of `nw` by `nh` pixels that `image::imageops::resize`,
/// with nearest-neighbour sampling, makes of the `w` by `h` buffer `data`.
pub uninterp spec fn resized(data: Seq<u8>, w: nat, h: nat, nw: nat, nh: nat) -> Seq<u8>;

/// Relies on `image::imageops::overlay`: draws `top` over `bottom` at `(x, y)`,
/// clipped to `bottom`, blending by alpha; `bottom` keeps its size, and what it
/// holds after depends on the two buffers, their sizes and the offset alone.
#[verifier::external_body]
pub(crate) fn overlay(bottom: &mut Vec<u8>, bw: u32, bh: u32, top: &Vec<u8>, tw: u32, th: u32, x: i64, y: i64)
    requires
        old(bottom)@.len() == bw as nat * bh as nat * 4,
        top@.len() == tw as nat * th as nat * 4,
    ensures
        final(bottom)@ == overlaid(old(bottom)@, bw as nat, bh as nat, top@, tw as nat, th as nat, x as int, y as int),
        final(bottom)@.len() == old(bottom)@.len(),
{
    let mut b = image::RgbaImage::from_raw(bw, bh, std::mem::take(bottom)).unwrap();
    let t = image::ImageBuffer::<image::Rgba<u8>, &[u8]>::from_raw(tw, th, top.as_slice()).unwrap();
    image::imageops::overlay(&mut b, &t, x, y);
    *bottom = b.into_raw();
}

/// Relies on `image::imageops::resize` with `FilterType::Nearest`: a buffer of
/// `nw` by `nh` pixels that depends on the source buffer and the sizes alone;
/// at the source's own size, a copy of it.
#[verifier::external_body]
pub(crate) fn resize_nearest(data: &Vec<u8>, w: u32, h: u32, nw: u32, nh: u32) -> (r: Vec<u8>)
    requires
        data@.len() == w as nat * h as nat * 4,
        w >= 1,
        h >= 1,
        nw as nat * nh as nat * 4 <= usize::MAX,
        w as nat * nh as nat * 4 <= usize::MAX,
    ensures
        r@ == resized(data@, w as nat, h as nat, nw as nat, nh as nat),
        r@.len() == nw as nat * nh as nat * 4,
        nw == w && nh == h ==> r@ == data@,
{
    let src = image::ImageBuffer::<image::Rgba<u8>, &[u8]>::from_raw(w, h, data.as_slice()).unwrap();
    image::imageops::resize(&src, nw, nh, image::imageops::FilterType::Nearest).into_raw()
}

/// A fully transparent buffer of `n` bytes.
pub open spec fn zeros(n: nat) -> Seq<u8> {
    Seq::new(n, |i: int| 0u8)
}

/// A fully transparent buffer of `len` bytes.
pub fn transparent(len: usize) -> (r: Vec<u8>)
    ensures
        r@ == zeros(len as nat),
{
    let mut r: Vec<u8> = Vec::new();
    let mut i: usize = 0;
    while i < len
        invariant
            i <= len,
            r@ == Seq::new(i as nat, |k: int| 0u8),
        decreases len - i,
    {
        r.push(0);
        i = i + 1;
        assert(r@ =~= Seq::new(i as nat, |k: int| 0u8));
    }
    r
}

} // verus!
