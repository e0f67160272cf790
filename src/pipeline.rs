use vstd::prelude::*;
use vstd::string::StringSliceAdditionalSpecFns;
use crate::angle::Angle;
use crate::command::{Command, CommandError, Commands};
use crate::flip::{self, flip_map};
use crate::frame::{Frame, FrameView, views, same_size, delay_of, get_delay, rev};
use crate::infinite::{infinite, zoomed};
use crate::pixels::{frames_remapped, pixel};
use crate::rain::{rain, rained_frames};
use crate::rainbow::{rainbow, cycled};
use crate::resize::{Resize, resize, scaled_size, resample_fits, resized_frame, ONE_SQUARED};
use crate::rng::Rng;
use crate::rotate::rotate;
use crate::shake::{shake, shaken_frames};
use crate::slide::{slide, slid};
use crate::spin::{spin, spun};
use crate::tempo::{hyperspeed, reverse, speed_by, with_delays, every_other, round_centisecs};
use crate::wiggle::{wiggle, wiggled_frames};
use crate::align::{speed_aligned, speed_fits};

verus! {

/// Work on the pixels that takes floating point, left to the caller: a turn
/// of each frame about its center, or a shift of each frame's hues.
pub enum PixelWork {
    Nothing,
    Rotate(Vec<Angle>),
    ShiftHue(Vec<Angle>),
}

/// The image formats that frames are read from.
#[derive(Clone, Copy, PartialEq, Eq, Structural, Debug)]
pub enum Format {
    Gif,
    Png,
}

/// Why the pipeline failed.
#[derive(Clone, Copy, PartialEq, Eq, Structural, Debug)]
pub enum ApplyError {
    UnsupportedExtension,
    DecodeFailure,
    EncodeFailure,
    /// Entry `entry` of the command list, the first bad one, is refused.
    MalformedCommand { entry: usize, error: CommandError },
}

/// The format that a file extension names: `gif` or `png`.
pub fn parse_extension(extension: &str) -> (r: Result<Format, ApplyError>)
    ensures
        extension.spec_bytes() == seq![103u8, 105, 102] ==> r == Ok::<Format, ApplyError>(Format::Gif),
        extension.spec_bytes() == seq![112u8, 110, 103] ==> r == Ok::<Format, ApplyError>(Format::Png),
        extension.spec_bytes() != seq![103u8, 105, 102] && extension.spec_bytes() != seq![112u8, 110, 103]
            ==> r == Err::<Format, ApplyError>(ApplyError::UnsupportedExtension),
{
    let b = extension.as_bytes();
    if b.len() == 3 && b[0] == 103 && b[1] == 105 && b[2] == 102 {
        assert(b@ =~= seq![103u8, 105, 102]);
        Ok(Format::Gif)
    } else if b.len() == 3 && b[0] == 112 && b[1] == 110 && b[2] == 103 {
        assert(b@ =~= seq![112u8, 110, 103]);
        Ok(Format::Png)
    } else {
        Err(ApplyError::UnsupportedExtension)
    }
}

/// A list whose entries all parse parses.
proof fn lemma_entries_ok(list: Seq<Vec<(String, String)>>)
    requires
        forall|j: int| 0 <= j < list.len() ==> (#[trigger] crate::command::entry_of(list[j]@)) is Ok,
    ensures
        crate::command::entries_of(list) is Ok,
    decreases list.len(),
{
    if list.len() > 0 {
        assert forall|j: int| 0 <= j < list.drop_last().len() implies (#[trigger] crate::command::entry_of(list.drop_last()[j]@)) is Ok by {
            assert(list.drop_last()[j] == list[j]);
        }
        lemma_entries_ok(list.drop_last());
        assert(crate::command::entry_of(list[list.len() - 1]@) is Ok);
    }
}

/// Parses a command list; a refusal names the first bad entry and why.
pub fn parse_commands(list: &Vec<Vec<(String, String)>>) -> (r: Result<Commands, ApplyError>)
    ensures
        r is Ok <==> crate::command::entries_of(list@) is Ok,
        r matches Ok(c) ==> (c.commands@, c.resize) == crate::command::split_entries(crate::command::entries_of(list@)->Ok_0),
        r matches Err(e) ==> exists|i: usize, c: CommandError| #![auto] e == (ApplyError::MalformedCommand { entry: i, error: c })
            && i < list@.len()
            && crate::command::entry_of(list@[i as int]@) == Err::<crate::command::CommandOrResize, CommandError>(c)
            && forall|j: int| 0 <= j < i ==> (#[trigger] crate::command::entry_of(list@[j]@)) is Ok,
{
    match Commands::parse(list) {
        Ok(c) => Ok(c),
        Err(_) => {
            let mut i: usize = 0;
            while i < list.len()
                invariant
                    i <= list@.len(),
                    crate::command::entries_of(list@) is Err,
                    forall|j: int| 0 <= j < i ==> (#[trigger] crate::command::entry_of(list@[j]@)) is Ok,
                decreases list@.len() - i,
            {
                match crate::command::parse_entry(&list[i]) {
                    Err(e) => {
                        return Err(ApplyError::MalformedCommand { entry: i, error: e });
                    },
                    Ok(_) => {},
                }
                i = i + 1;
            }
            proof {
                lemma_entries_ok(list@);
            }
            vstd::pervasive::unreached()
        },
    }
}

/// Whether a GIF can be handed back as it came: no effect and no resize.
pub fn passes_through(format: Format, commands: &Commands) -> (r: bool)
    ensures
        r == (format == Format::Gif && commands.commands@.len() == 0 && !commands.resize.requires_work_spec()),
{
    format == Format::Gif && commands.commands.len() == 0 && !commands.resize.requires_work()
}

/// Whether every frame is well formed and all have one size, as the effects need.
pub fn frames_ok(frames: &Vec<Frame>) -> (r: bool)
    ensures
        r == same_size(views(frames@)),
{
    if frames.len() == 0 {
        return true;
    }
    let w = frames[0].width;
    let h = frames[0].height;
    let mut i: usize = 0;
    while i < frames.len()
        invariant
            i <= frames@.len(),
            frames@.len() > 0,
            w == frames@[0].width,
            h == frames@[0].height,
            forall|k: int| 0 <= k < i ==> (#[trigger] views(frames@)[k]).wf() && views(frames@)[k].width == w
                && views(frames@)[k].height == h,
        decreases frames@.len() - i,
    {
        let f = &frames[i];
        assert(f.width as u128 * f.height as u128 <= 0xffff_ffff * 0xffff_ffff) by (nonlinear_arith)
            requires f.width <= 0xffff_ffff, f.height <= 0xffff_ffff;
        if f.width != w || f.height != h || f.data.len() as u128 != f.width as u128 * f.height as u128 * 4 {
            assert(!views(frames@)[i as int].wf() || views(frames@)[i as int].width != w || views(frames@)[i as int].height != h);
            return false;
        }
        i = i + 1;
    }
    true
}

/// Every pixel whose alpha is zero is made fully transparent black, the one
/// transparent color a GIF keeps.
pub open spec fn transparency_cleared(out: Seq<u8>, data: Seq<u8>) -> bool {
    &&& out.len() == data.len()
    &&& forall|p: int| 0 <= p < data.len() / 4 ==> #[trigger] pixel(out, p) == (if pixel(data, p)[3] == 0 {
        seq![0u8, 0, 0, 0]
    } else {
        pixel(data, p)
    })
    &&& forall|i: int| 4 * (data.len() / 4) <= i < data.len() ==> out[i] == data[i]
}

/// The one frame of a PNG image: its pixels with every fully transparent one
/// made transparent black, shown for two centiseconds.
pub fn png_frame(width: u32, height: u32, data: Vec<u8>) -> (f: Frame)
    ensures
        f@.width == width,
        f@.height == height,
        f@.left == 0,
        f@.top == 0,
        f@.delay == delay_of(2),
        transparency_cleared(f@.data, data@),
{
    let ghost start = data@;
    let mut data = data;
    let count = data.len() / 4;
    let mut p: usize = 0;
    while p < count
        invariant
            count == start.len() / 4,
            data@.len() == start.len(),
            p <= count,
            forall|q: int| 0 <= q < p ==> #[trigger] pixel(data@, q) == (if pixel(start, q)[3] == 0 {
                seq![0u8, 0, 0, 0]
            } else {
                pixel(start, q)
            }),
            forall|i: int| 4 * p <= i < data@.len() ==> data@[i] == start[i],
        decreases count - p,
    {
        let ghost before = data@;
        let dl = data.len();
        assert(4 * p + 3 < dl);
        if data[4 * p + 3] == 0 {
            data.set(4 * p, 0);
            data.set(4 * p + 1, 0);
            data.set(4 * p + 2, 0);
            data.set(4 * p + 3, 0);
        }
        proof {
            assert forall|q: int| 0 <= q < p + 1 implies #[trigger] pixel(data@, q) == (if pixel(start, q)[3] == 0 {
                seq![0u8, 0, 0, 0]
            } else {
                pixel(start, q)
            }) by {
                if q < p {
                    assert(pixel(data@, q) =~= pixel(before, q));
                } else {
                    assert(pixel(start, q)[3] == start[4 * q + 3]);
                    if pixel(start, q)[3] == 0 {
                        assert(pixel(data@, q) =~= seq![0u8, 0, 0, 0]);
                    } else {
                        assert(pixel(data@, q) =~= pixel(start, q));
                    }
                }
            }
        }
        p = p + 1;
    }
    Frame::from_parts(width, height, data, get_delay(2))
}

/// `out` and `work` are a possible result of command `c` on the frames `s`,
/// with the generator starting from state `seed`.
pub open spec fn effect(s: Seq<FrameView>, out: Seq<FrameView>, work: PixelWork, c: Command, seed: u64) -> bool {
    match c {
        Command::Flip { direction } => work is Nothing && frames_remapped(out, s, |i: int| flip_map(direction)),
        Command::Hyperspeed => work is Nothing
            && (s.len() <= 4 ==> out == with_delays(s, delay_of(2)))
            && (s.len() > 4 ==> out == with_delays(every_other(s), delay_of(2))),
        Command::Infinite { speed } => work is Nothing
            && (!speed_fits(s, 8) ==> out == s)
            && (speed_fits(s, 8) ==> zoomed(out, speed_aligned(s, 8), speed.micros as int)),
        Command::Rain { ty } => work is Nothing && rained_frames(out, s, ty, seed),
        Command::Rainbow { speed } => work matches PixelWork::ShiftHue(v)
            && (!speed_fits(s, 8) ==> out == s && v@.len() == 0)
            && (speed_fits(s, 8) ==> cycled(out, v@, speed_aligned(s, 8), speed.micros as int)),
        Command::Reverse => work is Nothing && out == rev(s),
        Command::Rotate { degrees } => work matches PixelWork::Rotate(v) && out == s && v@.len() == s.len()
            && forall|i: int| 0 <= i < v@.len() ==> #[trigger] v@[i] == (Angle { num: degrees.micros as i128, den: 1_000_000u64 }),
        Command::Shake { strength } => work is Nothing && shaken_frames(out, s, strength.micros as int),
        Command::Slide { direction, speed } => work is Nothing
            && (!speed_fits(s, 6) ==> out == s)
            && (speed_fits(s, 6) ==> slid(out, speed_aligned(s, 6), speed.micros as int, direction)),
        Command::Speed { value } => work is Nothing && out == with_delays(s, delay_of(round_centisecs(value.micros as int))),
        Command::Spin { direction, speed } => work matches PixelWork::Rotate(v)
            && (!speed_fits(s, 8) ==> out == s && v@.len() == 0)
            && (speed_fits(s, 8) ==> spun(out, v@, speed_aligned(s, 8), speed.micros as int, direction)),
        Command::Wiggle { speed } => work is Nothing
            && (!speed_fits(s, 6) ==> out == s)
            && (speed_fits(s, 6) ==> wiggled_frames(out, speed_aligned(s, 6), speed.micros as int)),
    }
}

/// Applies one effect. What takes floating point (a rotation, a hue shift)
/// comes back as work for the caller, to do on the frames as they are left.
pub fn apply_command(frames: &mut Vec<Frame>, command: Command, rng: &mut Rng) -> (work: PixelWork)
    requires
        same_size(views(old(frames)@)),
    ensures
        same_size(views(final(frames)@)),
        effect(views(old(frames)@), views(final(frames)@), work, command, old(rng).state),
{
    let ghost s = views(frames@);
    match command {
        Command::Flip { direction } => {
            flip::flip(frames, direction);
            proof {
                lemma_flip_same_size(s, views(frames@), direction);
            }
            PixelWork::Nothing
        },
        Command::Hyperspeed => {
            hyperspeed(frames);
            proof {
                lemma_hyperspeed_same_size(s, views(frames@));
            }
            PixelWork::Nothing
        },
        Command::Infinite { speed } => {
            infinite(frames, speed, rng);
            PixelWork::Nothing
        },
        Command::Rain { ty } => {
            rain(frames, ty, rng);
            PixelWork::Nothing
        },
        Command::Rainbow { speed } => PixelWork::ShiftHue(rainbow(frames, speed, rng)),
        Command::Reverse => {
            reverse(frames);
            proof {
                assert forall|i: int| 0 <= i < s.len() implies #[trigger] rev(s)[i] == s[s.len() - 1 - i] by {}
            }
            PixelWork::Nothing
        },
        Command::Rotate { degrees } => PixelWork::Rotate(rotate(frames, degrees)),
        Command::Shake { strength } => {
            shake(frames, strength, rng);
            PixelWork::Nothing
        },
        Command::Slide { direction, speed } => {
            slide(frames, speed, direction, rng);
            PixelWork::Nothing
        },
        Command::Speed { value } => {
            speed_by(frames, value);
            proof {
                if s.len() > 0 {
                    assert(forall|i: int| 0 <= i < s.len() ==> #[trigger] views(frames@)[i] == s[i].with_delay(
                        delay_of(round_centisecs(value.micros as int))));
                }
            }
            PixelWork::Nothing
        },
        Command::Spin { direction, speed } => PixelWork::Rotate(spin(frames, speed, direction, rng)),
        Command::Wiggle { speed } => {
            wiggle(frames, speed, rng);
            PixelWork::Nothing
        },
    }
}

proof fn lemma_flip_same_size(s: Seq<FrameView>, out: Seq<FrameView>, d: flip::Direction)
    requires
        same_size(s),
        frames_remapped(out, s, |i: int| flip_map(d)),
    ensures
        same_size(out),
{
    if s.len() > 0 {
        assert forall|i: int| 0 <= i < out.len() implies (#[trigger] out[i]).wf() && out[i].width == out[0].width
            && out[i].height == out[0].height by {
            assert(out[i] == s[i].with_data(out[i].data));
            assert(out[0] == s[0].with_data(out[0].data));
            assert(crate::pixels::remapped(out[i].data, s[i].data, s[i].width, s[i].height, flip_map(d)));
        }
    }
}

proof fn lemma_hyperspeed_same_size(s: Seq<FrameView>, out: Seq<FrameView>)
    requires
        same_size(s),
        s.len() <= 4 ==> out == with_delays(s, delay_of(2)),
        s.len() > 4 ==> out == with_delays(every_other(s), delay_of(2)),
    ensures
        same_size(out),
{
    if s.len() > 4 {
        assert forall|i: int| 0 <= i < out.len() implies (#[trigger] out[i]).wf() && out[i].width == out[0].width
            && out[i].height == out[0].height by {
            assert(out[i] == s[2 * i].with_delay(delay_of(2)));
            assert(out[0] == s[0].with_delay(delay_of(2)));
        }
    } else if s.len() > 0 {
        assert forall|i: int| 0 <= i < out.len() implies (#[trigger] out[i]).wf() && out[i].width == out[0].width
            && out[i].height == out[0].height by {
            assert(out[i] == s[i].with_delay(delay_of(2)));
        }
    }
}

/// What a resize does to the frames `s`.
pub open spec fn resize_effect(s: Seq<FrameView>, out: Seq<FrameView>, r: Resize) -> bool {
    if s.len() == 0 {
        out.len() == 0
    } else {
        let w = s[0].width;
        let h = s[0].height;
        let nw = scaled_size(w, r.scale_spec().x.micros as int);
        let nh = scaled_size(h, r.scale_spec().y.micros as int);
        if resample_fits(w, h, nw, nh) {
            out == s.map_values(|f: FrameView| resized_frame(f, nw, nh))
        } else {
            out == s
        }
    }
}

impl Commands {
    /// The resize that comes before the effects: the one that shrinks the
    /// frames in area.
    pub fn apply_pre_resize(&self, frames: &mut Vec<Frame>)
        requires
            same_size(views(old(frames)@)),
        ensures
            same_size(views(final(frames)@)),
            self.resize.overall_size_spec() < ONE_SQUARED ==> resize_effect(views(old(frames)@), views(final(frames)@), self.resize),
            self.resize.overall_size_spec() >= ONE_SQUARED ==> final(frames)@ == old(frames)@,
    {
        if self.resize.pre_commands() {
            resize(frames, self.resize);
        }
    }

    /// The resize that comes after the effects: the one that grows the frames
    /// in area.
    pub fn apply_post_resize(&self, frames: &mut Vec<Frame>)
        requires
            same_size(views(old(frames)@)),
        ensures
            same_size(views(final(frames)@)),
            self.resize.overall_size_spec() > ONE_SQUARED ==> resize_effect(views(old(frames)@), views(final(frames)@), self.resize),
            self.resize.overall_size_spec() <= ONE_SQUARED ==> final(frames)@ == old(frames)@,
    {
        if self.resize.post_commands() {
            resize(frames, self.resize);
        }
    }
}

} // verus!
