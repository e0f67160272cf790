use vstd::prelude::*;

verus! {

/// Bytes per RGBA pixel.
pub const CHANNEL_COUNT: usize = 4;

/// A frame delay as a ratio of milliseconds, `numer / denom`.
#[derive(Clone, Copy, PartialEq, Eq, Structural, Debug)]
pub struct Delay {
    pub numer: u32,
    pub denom: u32,
}

/// One still image of an animation: an RGBA buffer of `width * height` pixels,
/// row by row, its offset on the canvas and its delay.
#[derive(Debug)]
pub struct Frame {
    pub width: u32,
    pub height: u32,
    pub data: Vec<u8>,
    pub left: u32,
    pub top: u32,
    pub delay: Delay,
}

/// What a frame holds, as plain values.
pub ghost struct FrameView {
    pub width: nat,
    pub height: nat,
    pub data: Seq<u8>,
    pub left: nat,
    pub top: nat,
    pub delay: Delay,
}

impl View for Frame {
    type V = FrameView;

    open spec fn view(&self) -> FrameView {
        FrameView {
            width: self.width as nat,
            height: self.height as nat,
            data: self.data@,
            left: self.left as nat,
            top: self.top as nat,
            delay: self.delay,
        }
    }
}

/// The views of a sequence of frames.
pub open spec fn views(s: Seq<Frame>) -> Seq<FrameView> {
    s.map_values(|f: Frame| f@)
}

/// The views of a sequence grown by one frame.
pub proof fn lemma_views_push(s: Seq<Frame>, f: Frame)
    ensures
        views(s.push(f)) == views(s).push(f@),
{
    assert(views(s.push(f)) =~= views(s).push(f@));
}

/// The frames in reverse order.
pub open spec fn rev(s: Seq<FrameView>) -> Seq<FrameView> {
    Seq::new(s.len(), |i: int| s[s.len() - 1 - i])
}

/// Number of bytes of a `w` by `h` RGBA buffer.
pub open spec fn buffer_len(w: nat, h: nat) -> nat {
    w * h * 4
}

impl FrameView {
    /// The buffer holds exactly `width * height` pixels.
    pub open spec fn wf(self) -> bool {
        self.data.len() == buffer_len(self.width, self.height)
    }

    /// The same frame with another delay.
    pub open spec fn with_delay(self, d: Delay) -> FrameView {
        FrameView { delay: d, ..self }
    }

    /// The same frame with another buffer.
    pub open spec fn with_data(self, data: Seq<u8>) -> FrameView {
        FrameView { data, ..self }
    }
}

/// Every frame is well formed and all share one size.
pub open spec fn uniform(s: Seq<FrameView>, w: nat, h: nat) -> bool {
    forall|i: int| 0 <= i < s.len() ==> (#[trigger] s[i]).wf() && s[i].width == w && s[i].height == h
}

/// Every frame is well formed and has the size of the first.
pub open spec fn same_size(s: Seq<FrameView>) -> bool {
    s.len() > 0 ==> uniform(s, s[0].width, s[0].height)
}

/// The delay of `c` centiseconds.
pub open spec fn delay_of(c: nat) -> Delay {
    Delay { numer: (c * 10) as u32, denom: 1 }
}

/// The delay's length read as milliseconds, `numer * denom`: ten times its centiseconds.
pub open spec fn delay_millis(d: Delay) -> nat {
    d.numer as nat * d.denom as nat
}

/// The largest number of centiseconds whose delay fits.
pub const MAX_CENTISECS: u32 = 429496729;

/// The delay of `centisecs` centiseconds, stored as `(10 * centisecs, 1)` milliseconds.
pub fn get_delay(centisecs: u32) -> (r: Delay)
    requires
        centisecs <= MAX_CENTISECS,
    ensures
        r == delay_of(centisecs as nat),
        delay_millis(r) == 10 * centisecs,
{
    Delay { numer: centisecs * 10, denom: 1 }
}

/// Ten times the delay's centiseconds (`numer * denom`), without overflow.
pub fn get_delay_millis(delay: Delay) -> (r: u64)
    ensures
        r == delay_millis(delay),
{
    proof {
        vstd::arithmetic::mul::lemma_mul_upper_bound(
            delay.numer as int,
            u32::MAX as int,
            delay.denom as int,
            u32::MAX as int,
        );
    }
    delay.numer as u64 * delay.denom as u64
}

/// The delay's whole centiseconds, `numer * denom / 10` rounded down.
pub fn get_delay_centisecs(delay: Delay) -> (r: u64)
    ensures
        r == delay_millis(delay) / 10,
{
    get_delay_millis(delay) / 10
}

impl Frame {
    /// A frame of the given buffer, at offset zero.
    pub fn from_parts(width: u32, height: u32, data: Vec<u8>, delay: Delay) -> (r: Frame)
        ensures
            r@ == (FrameView {
                width: width as nat,
                height: height as nat,
                data: data@,
                left: 0,
                top: 0,
                delay,
            }),
    {
        Frame { width, height, data, left: 0, top: 0, delay }
    }

    /// A copy of this frame.
    pub fn duplicate(&self) -> (r: Frame)
        ensures
            r@ == self@,
    {
        Frame {
            width: self.width,
            height: self.height,
            data: self.data.clone(),
            left: self.left,
            top: self.top,
            delay: self.delay,
        }
    }
}

/// A copy of every frame, in order.
pub fn duplicate_all(frames: &Vec<Frame>) -> (r: Vec<Frame>)
    ensures
        views(r@) == views(frames@),
{
    let mut r: Vec<Frame> = Vec::new();
    let mut i: usize = 0;
    while i < frames.len()
        invariant
            i <= frames.len(),
            views(r@) == views(frames@).take(i as int),
        decreases frames.len() - i,
    {
        let d = frames[i].duplicate();
        let ghost before = r@;
        r.push(d);
        proof {
            lemma_views_push(before, d);
        }
        i = i + 1;
        assert(views(r@) =~= views(frames@).take(i as int));
    }
    assert(views(frames@).take(frames.len() as int) =~= views(frames@));
    r
}

/// Empties `frames` and hands back its frames in reverse order, so that
/// popping them yields them in their first order.
pub fn take_reversed(frames: &mut Vec<Frame>) -> (r: Vec<Frame>)
    ensures
        final(frames)@.len() == 0,
        views(r@) == rev(views(old(frames)@)),
{
    let ghost start = views(frames@);
    let n = frames.len();
    let mut out: Vec<Frame> = Vec::new();
    while frames.len() > 0
        invariant
            n == start.len(),
            frames@.len() <= n,
            views(frames@) == start.take(frames@.len() as int),
            views(out@) == rev(start).take(n - frames@.len()),
        decreases frames.len(),
    {
        let ghost before_f = frames@;
        let ghost before_o = out@;
        let f = frames.pop().unwrap();
        out.push(f);
        proof {
            lemma_views_push(before_o, f);
            assert(views(before_f.drop_last()) =~= views(before_f).drop_last());
            assert(views(before_f)[before_f.len() - 1] == f@);
            assert(views(before_f)[before_f.len() - 1] == start[before_f.len() - 1]);
            assert(views(frames@) =~= start.take(frames@.len() as int));
            assert(views(out@) =~= rev(start).take(n - frames@.len()));
        }
    }
    assert(rev(start).take(n as int) =~= rev(start));
    out
}

} // verus!
