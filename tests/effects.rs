use gif_effects::align::{align_gif, align_speed};
use gif_effects::command::{parse_command, parse_entry, Command, CommandError, CommandOrResize, Commands};
use gif_effects::flip::{self, flip};
use gif_effects::frame::{get_delay, Delay, Frame};
use gif_effects::image_ops::transparent;
use gif_effects::number::{parse_decimal, parse_u8, Decimal};
use gif_effects::pipeline::{apply_command, frames_ok, parse_commands, parse_extension, passes_through, png_frame, ApplyError, Format, PixelWork};
use gif_effects::pixels::{remap, PixelMap};
use gif_effects::rain::{create_drops, rain, RainType};
use gif_effects::resize::{resize, Resize};
use gif_effects::rng::{get_random_u32, Rng};
use gif_effects::shake::shake;
use gif_effects::slide;
use gif_effects::spin;
use gif_effects::tempo::{hyperspeed, reverse, speed};

fn solid(w: u32, h: u32, rgba: [u8; 4], cs: u32) -> Frame {
    let mut data = Vec::new();
    for _ in 0..(w * h) {
        data.extend_from_slice(&rgba);
    }
    Frame::from_parts(w, h, data, get_delay(cs))
}

fn patterned(w: u32, h: u32, cs: u32) -> Frame {
    let data: Vec<u8> = (0..(w * h * 4)).map(|i| (i * 7 % 251) as u8).collect();
    Frame::from_parts(w, h, data, get_delay(cs))
}

fn opaque_pattern(w: u32, h: u32, cs: u32) -> Frame {
    let data: Vec<u8> = (0..(w * h * 4)).map(|i| if i % 4 == 3 { 255 } else { (i * 7 % 251) as u8 }).collect();
    Frame::from_parts(w, h, data, get_delay(cs))
}

fn dec(s: &str) -> Decimal {
    parse_decimal(s).unwrap()
}

fn entry(name: &str, param: &str) -> Vec<(String, String)> {
    vec![("name".to_string(), name.to_string()), ("param".to_string(), param.to_string())]
}

fn red_green() -> Vec<Frame> {
    vec![solid(2, 2, [255, 0, 0, 255], 10), solid(2, 2, [0, 255, 0, 255], 10)]
}

#[test]
fn reverse_two_frames() {
    let mut frames = red_green();
    let commands = parse_commands(&vec![entry("reverse", "0")]).unwrap();
    let mut rng = Rng::new(1);
    let work = apply_command(&mut frames, commands.commands[0], &mut rng);
    assert!(matches!(work, PixelWork::Nothing));
    assert_eq!(frames.len(), 2);
    assert_eq!(&frames[0].data[0..4], &[0, 255, 0, 255]);
    assert_eq!(&frames[1].data[0..4], &[255, 0, 0, 255]);
    assert_eq!(frames[0].delay, Delay { numer: 100, denom: 1 });
    assert_eq!(frames[1].delay, Delay { numer: 100, denom: 1 });
}

#[test]
fn hyperspeed_two_frames() {
    let mut frames = red_green();
    let commands = parse_commands(&vec![entry("hyperspeed", "0")]).unwrap();
    let mut rng = Rng::new(1);
    apply_command(&mut frames, commands.commands[0], &mut rng);
    assert_eq!(frames.len(), 2);
    for f in &frames {
        assert_eq!(f.delay, Delay { numer: 20, denom: 1 });
    }
}

#[test]
fn hyperspeed_keeps_every_other_frame() {
    let mut frames: Vec<Frame> = (0..7).map(|i| solid(1, 1, [i as u8, 0, 0, 255], 10)).collect();
    hyperspeed(&mut frames);
    assert_eq!(frames.len(), 4);
    let reds: Vec<u8> = frames.iter().map(|f| f.data[0]).collect();
    assert_eq!(reds, vec![0, 2, 4, 6]);
    assert!(frames.iter().all(|f| f.delay == Delay { numer: 20, denom: 1 }));
}

#[test]
fn flip_twice_is_identity() {
    for dir in [flip::Direction::Horizontal, flip::Direction::Vertical] {
        let mut frames = vec![patterned(3, 2, 10), patterned(3, 2, 10)];
        let before: Vec<Vec<u8>> = frames.iter().map(|f| f.data.clone()).collect();
        flip(&mut frames, dir);
        assert_ne!(frames[0].data, before[0]);
        flip(&mut frames, dir);
        let after: Vec<Vec<u8>> = frames.iter().map(|f| f.data.clone()).collect();
        assert_eq!(after, before);
    }
}

#[test]
fn flip_twice_through_commands() {
    let mut frames = red_green();
    frames[0].data[0..4].copy_from_slice(&[1, 2, 3, 255]);
    let before: Vec<Vec<u8>> = frames.iter().map(|f| f.data.clone()).collect();
    let commands = parse_commands(&vec![entry("flip", "0"), entry("flip", "0")]).unwrap();
    let mut rng = Rng::new(1);
    for c in commands.commands.iter() {
        apply_command(&mut frames, *c, &mut rng);
    }
    let after: Vec<Vec<u8>> = frames.iter().map(|f| f.data.clone()).collect();
    assert_eq!(after, before);
}

#[test]
fn flip_horizontal_mirrors_rows() {
    let f = Frame::from_parts(2, 1, vec![1, 2, 3, 4, 5, 6, 7, 8], get_delay(2));
    let mut frames = vec![f];
    flip(&mut frames, flip::Direction::Horizontal);
    assert_eq!(frames[0].data, vec![5, 6, 7, 8, 1, 2, 3, 4]);
    flip(&mut frames, flip::Direction::Vertical);
    assert_eq!(frames[0].data, vec![5, 6, 7, 8, 1, 2, 3, 4]);
}

#[test]
fn png_transparent_pixels_become_black() {
    let mut data = vec![200u8; 4 * 4 * 4];
    data[20..24].copy_from_slice(&[17, 34, 51, 0]);
    let f = png_frame(4, 4, data);
    assert_eq!(&f.data[20..24], &[0, 0, 0, 0]);
    assert_eq!(&f.data[0..4], &[200, 200, 200, 200]);
    assert_eq!(f.delay, Delay { numer: 20, denom: 1 });
    assert_eq!((f.left, f.top), (0, 0));
}

#[test]
fn shrink_is_applied_before_effects() {
    let commands = parse_commands(&vec![entry("resize", "0.5"), entry("rotate", "90")]).unwrap();
    assert_eq!(commands.commands.len(), 1);
    assert!(commands.resize.pre_commands());
    assert!(!commands.resize.post_commands());
    let mut frames = vec![patterned(10, 10, 10), patterned(10, 10, 10)];
    commands.apply_pre_resize(&mut frames);
    assert!(frames.iter().all(|f| f.width == 5 && f.height == 5 && f.data.len() == 100));
    let mut rng = Rng::new(3);
    match apply_command(&mut frames, commands.commands[0], &mut rng) {
        PixelWork::Rotate(angles) => {
            assert_eq!(angles.len(), 2);
            assert!(angles.iter().all(|a| a.num == 90_000_000 && a.den == 1_000_000));
        }
        _ => panic!("rotation expected"),
    }
    commands.apply_post_resize(&mut frames);
    assert_eq!(frames[0].width, 5);
}

#[test]
fn growth_is_applied_after_effects() {
    let commands = parse_commands(&vec![entry("rotate", "90"), entry("resize", "2")]).unwrap();
    assert!(commands.resize.post_commands());
    let mut frames = vec![patterned(10, 10, 10), patterned(10, 10, 10)];
    commands.apply_pre_resize(&mut frames);
    assert_eq!(frames[0].width, 10);
    commands.apply_post_resize(&mut frames);
    assert!(frames.iter().all(|f| f.width == 20 && f.height == 20 && f.data.len() == 1600));
}

#[test]
fn resize_by_one_is_a_copy() {
    let mut frames = vec![patterned(3, 4, 10)];
    let before = frames[0].data.clone();
    resize(&mut frames, Resize::Stretch { scale_x: dec("1"), scale_y: dec("1") });
    assert_eq!((frames[0].width, frames[0].height), (3, 4));
    assert_eq!(frames[0].data, before);
    assert!(!Resize::Scale { scale: dec("1") }.requires_work());
}

#[test]
fn resize_and_back_keeps_size() {
    let mut frames = vec![patterned(10, 6, 10)];
    resize(&mut frames, Resize::Scale { scale: dec("0.5") });
    assert_eq!((frames[0].width, frames[0].height), (5, 3));
    resize(&mut frames, Resize::Scale { scale: dec("2") });
    assert_eq!((frames[0].width, frames[0].height), (10, 6));
}

#[test]
fn resize_rounds_halves_up() {
    let mut frames = vec![patterned(3, 3, 10)];
    resize(&mut frames, Resize::Stretch { scale_x: dec("0.5"), scale_y: dec("1.5") });
    assert_eq!((frames[0].width, frames[0].height), (2, 5));
    assert_eq!(frames[0].data.len(), 2 * 5 * 4);
}

#[test]
fn align_reaches_a_multiple() {
    let frames: Vec<Frame> = (0..3).map(|i| solid(1, 1, [i, 0, 0, 255], 5)).collect();
    for interval in [1usize, 2, 4, 5, 7, 12, 17] {
        let mut rng = Rng::new(interval as u64);
        let out = align_gif(&frames, interval, &mut rng);
        assert_eq!(out.len() % interval, 0);
        assert!(out.len() >= interval);
    }
    let mut rng = Rng::new(9);
    assert!(align_gif(&Vec::new(), 4, &mut rng).is_empty());
}

#[test]
fn align_keeps_copy_order() {
    let frames: Vec<Frame> = (0..32).map(|i| solid(1, 1, [i, 0, 0, 255], 5)).collect();
    let mut rng = Rng::new(5);
    let out = align_gif(&frames, 17, &mut rng);
    assert_eq!(out.len(), 187);
    let reds: Vec<u8> = out.iter().map(|f| f.data[0]).collect();
    let wraps = reds.windows(2).filter(|w| w[1] <= w[0]).count();
    assert_eq!(wraps, 5);
}

#[test]
fn align_speed_pads_slow_frames() {
    let mut frames = vec![solid(1, 1, [1, 0, 0, 255], 20), solid(1, 1, [2, 0, 0, 255], 20)];
    align_speed(&mut frames, 6);
    assert_eq!(frames.len(), 8);
    let reds: Vec<u8> = frames.iter().map(|f| f.data[0]).collect();
    assert_eq!(reds, vec![1, 1, 1, 1, 2, 2, 2, 2]);
    assert!(frames.iter().all(|f| f.delay == Delay { numer: 50, denom: 1 }));
}

#[test]
fn align_speed_leaves_fast_frames() {
    let mut frames = vec![solid(1, 1, [1, 0, 0, 255], 4)];
    align_speed(&mut frames, 6);
    assert_eq!(frames.len(), 1);
    assert_eq!(frames[0].delay, Delay { numer: 40, denom: 1 });
}

#[test]
fn speed_sets_every_delay() {
    let mut frames = red_green();
    speed(&mut frames, 7);
    assert!(frames.iter().all(|f| f.delay == Delay { numer: 70, denom: 1 }));
    let commands = parse_commands(&vec![entry("speed", "2.5")]).unwrap();
    let mut rng = Rng::new(1);
    apply_command(&mut frames, commands.commands[0], &mut rng);
    assert!(frames.iter().all(|f| f.delay == Delay { numer: 30, denom: 1 }));
}

#[test]
fn reverse_twice_is_identity() {
    let mut frames: Vec<Frame> = (0..5).map(|i| solid(1, 1, [i, 0, 0, 255], 5)).collect();
    reverse(&mut frames);
    assert_eq!(frames[0].data[0], 4);
    reverse(&mut frames);
    let reds: Vec<u8> = frames.iter().map(|f| f.data[0]).collect();
    assert_eq!(reds, vec![0, 1, 2, 3, 4]);
}

#[test]
fn slide_turn_wraps_round() {
    let data: Vec<u8> = (0..(3 * 2 * 4)).map(|i| i as u8).collect();
    let zero = remap(&data, 3, 2, PixelMap::RowsRight(0));
    let full = remap(&data, 3, 2, PixelMap::RowsRight(3));
    assert_eq!(zero, full);
    assert_eq!(zero, data);
    let one = remap(&data, 3, 2, PixelMap::RowsRight(1));
    assert_eq!(&one[0..12], &[8, 9, 10, 11, 0, 1, 2, 3, 4, 5, 6, 7]);
    let left = remap(&data, 3, 2, PixelMap::RowsLeft(1));
    assert_eq!(&left[0..12], &[4, 5, 6, 7, 8, 9, 10, 11, 0, 1, 2, 3]);
    assert_eq!(slide::Direction::Forwards.rotate_vec(2), PixelMap::RowsRight(2));
}

#[test]
fn slide_aligns_to_a_turn() {
    let mut frames = vec![patterned(4, 2, 5)];
    let mut rng = Rng::new(11);
    slide::slide(&mut frames, dec("8"), slide::Direction::Forwards, &mut rng);
    assert_eq!(frames.len(), 10);
    assert!(frames.iter().all(|f| f.width == 4 && f.data.len() == 32));
}

#[test]
fn spin_angles_step_through_a_turn() {
    let mut frames = vec![patterned(2, 2, 8)];
    let mut rng = Rng::new(2);
    let angles = spin::spin(&mut frames, dec("8"), spin::Direction::Clockwise, &mut rng);
    assert_eq!(frames.len(), 25);
    assert_eq!(angles.len(), 25);
    assert_eq!((angles[1].num, angles[1].den), (115_200_000, 8_000_000));
    assert_eq!(angles[1].num as f64 / angles[1].den as f64, 14.4);
    let mut frames = vec![patterned(2, 2, 8)];
    let ccw = spin::spin(&mut frames, dec("8"), spin::Direction::CounterClockwise, &mut rng);
    assert_eq!(ccw[1].num, -115_200_000);
}

#[test]
fn rainbow_shifts_step_through_a_cycle() {
    let mut frames = vec![patterned(2, 2, 8)];
    let mut rng = Rng::new(2);
    match apply_command(&mut frames, Command::Rainbow { speed: dec("8") }, &mut rng) {
        PixelWork::ShiftHue(shifts) => {
            assert_eq!(shifts.len(), 15);
            assert_eq!(shifts[2].num as f64 / shifts[2].den as f64, 48.0);
        }
        _ => panic!("hue shift expected"),
    }
}

#[test]
fn shake_moves_the_frames() {
    let mut frames = vec![opaque_pattern(48, 48, 5)];
    let before = frames[0].data.clone();
    let mut rng = Rng::new(4);
    shake(&mut frames, dec("0"), &mut rng);
    assert_eq!(frames.len(), 4);
    assert_ne!(frames[0].data, before);
    assert!(frames.iter().all(|f| f.data.len() == before.len()));
    assert_eq!(&frames[0].data[0..4], &before[(5 * 48 + 5) * 4..(5 * 48 + 5) * 4 + 4]);
}

#[test]
fn rain_paints_blue_drops() {
    let mut frames = vec![solid(20, 20, [0, 0, 0, 255], 5)];
    let mut rng = Rng::new(8);
    rain(&mut frames, RainType::Regular, &mut rng);
    assert_eq!(frames.len(), 12);
    let mut painted = 0;
    for f in &frames {
        for px in f.data.chunks(4) {
            assert!(px == [0, 0, 0, 255] || px == [0, 120, 255, 255]);
            if px == [0, 120, 255, 255] {
                painted += 1;
            }
        }
    }
    assert!(painted > 0);
    let drops = create_drops(20, 30, RainType::Glitter, 5, &mut rng);
    assert_eq!(drops.len(), 10);
    assert!(drops.iter().all(|d| d.x < 20 && d.y < 30 && d.len >= 1 && d.len <= 5 && d.size >= 1 && d.size <= 2));
}

#[test]
fn infinite_keeps_frame_size() {
    let mut frames = vec![patterned(8, 8, 8)];
    let mut rng = Rng::new(6);
    apply_command(&mut frames, Command::Infinite { speed: dec("8") }, &mut rng);
    assert_eq!(frames.len(), 12);
    assert!(frames.iter().all(|f| f.width == 8 && f.data.len() == 256));
}

#[test]
fn wiggle_keeps_frame_size() {
    let mut frames = vec![patterned(50, 48, 5)];
    let before = frames[0].data.clone();
    let mut rng = Rng::new(6);
    apply_command(&mut frames, Command::Wiggle { speed: dec("8") }, &mut rng);
    assert_eq!(frames.len(), 12);
    assert!(frames.iter().all(|f| f.width == 50 && f.data.len() == before.len()));
    assert_ne!(frames[1].data, before);
}

#[test]
fn last_resize_wins() {
    let list = vec![entry("resize", "2"), entry("reverse", "0"), entry("resize", "3x4"), entry("flip", "1")];
    let commands = Commands::parse(&list).unwrap();
    assert_eq!(commands.commands, vec![Command::Reverse, Command::Flip { direction: flip::Direction::Vertical }]);
    assert_eq!(commands.resize, Resize::Stretch { scale_x: dec("3"), scale_y: dec("4") });
    let none = Commands::parse(&vec![entry("reverse", "0")]).unwrap();
    assert_eq!(none.resize, Resize::Unchanged);
}

#[test]
fn malformed_commands_are_refused() {
    assert_eq!(parse_entry(&vec![]), Err(CommandError::MissingName));
    assert_eq!(parse_entry(&vec![("param".to_string(), "1".to_string())]), Err(CommandError::MissingName));
    assert_eq!(parse_entry(&vec![("name".to_string(), "flip".to_string())]), Err(CommandError::MissingParam));
    assert_eq!(parse_command("sparkle", "1"), Err(CommandError::UnknownName));
    assert_eq!(parse_command("rotate", "ninety"), Err(CommandError::InvalidParam));
    assert_eq!(parse_command("flip", "256"), Err(CommandError::InvalidParam));
    assert_eq!(parse_command("resize", "2x"), Err(CommandError::InvalidParam));
    assert_eq!(parse_command("resize", "2x3x4"), Err(CommandError::InvalidParam));
    let err = parse_commands(&vec![entry("reverse", "0"), entry("zoom", "1")]);
    assert!(matches!(err, Err(ApplyError::MalformedCommand { entry: 1, error: CommandError::UnknownName })));
}

#[test]
fn every_name_parses() {
    let cases = [
        ("flip", "0", Command::Flip { direction: flip::Direction::Horizontal }),
        ("hyperspeed", "0", Command::Hyperspeed),
        ("infinite", "1.5", Command::Infinite { speed: dec("1.5") }),
        ("rain", "1", Command::Rain { ty: RainType::Glitter }),
        ("rainbow", "2", Command::Rainbow { speed: dec("2") }),
        ("reverse", "0", Command::Reverse),
        ("rotate", "-45", Command::Rotate { degrees: dec("-45") }),
        ("shake", "3", Command::Shake { strength: dec("3") }),
        ("slide", "4", Command::Slide { direction: slide::Direction::Forwards, speed: dec("4") }),
        ("sliderev", "4", Command::Slide { direction: slide::Direction::Backwards, speed: dec("4") }),
        ("speed", "6", Command::Speed { value: dec("6") }),
        ("spin", "5", Command::Spin { direction: spin::Direction::Clockwise, speed: dec("5") }),
        ("spinrev", "5", Command::Spin { direction: spin::Direction::CounterClockwise, speed: dec("5") }),
        ("wiggle", "7", Command::Wiggle { speed: dec("7") }),
    ];
    for (name, param, expected) in cases {
        assert_eq!(parse_command(name, param), Ok(CommandOrResize::Command(expected)));
    }
    assert_eq!(parse_command("resize", "0.5"), Ok(CommandOrResize::Resize(Resize::Scale { scale: dec("0.5") })));
}

#[test]
fn numbers_parse_exactly() {
    assert_eq!(parse_decimal("0.5"), Some(Decimal { micros: 500_000 }));
    assert_eq!(parse_decimal("-2.25"), Some(Decimal { micros: -2_250_000 }));
    assert_eq!(parse_decimal("+3"), Some(Decimal { micros: 3_000_000 }));
    assert_eq!(parse_decimal(".5"), Some(Decimal { micros: 500_000 }));
    assert_eq!(parse_decimal("7."), Some(Decimal { micros: 7_000_000 }));
    assert_eq!(parse_decimal("0.12345678"), Some(Decimal { micros: 123_456 }));
    assert_eq!(parse_decimal("."), None);
    assert_eq!(parse_decimal(""), None);
    assert_eq!(parse_decimal("1e3"), Some(Decimal { micros: 1_000_000_000 }));
    assert_eq!(parse_decimal("1e-7"), Some(Decimal { micros: 0 }));
    assert_eq!(parse_decimal("2.5E2"), Some(Decimal { micros: 250_000_000 }));
    assert_eq!(parse_decimal("1.2345678e1"), Some(Decimal { micros: 12_345_678 }));
    assert_eq!(parse_decimal("-1.5e-1"), Some(Decimal { micros: -150_000 }));
    assert_eq!(parse_decimal("1e+2"), Some(Decimal { micros: 100_000_000 }));
    assert_eq!(parse_decimal("1e13"), None);
    assert_eq!(parse_decimal("1e"), None);
    assert_eq!(parse_decimal("e5"), None);
    assert_eq!(parse_decimal("inf"), None);
    assert_eq!(parse_decimal("1000000000001"), None);
    assert_eq!(parse_u8("255"), Some(255));
    assert_eq!(parse_u8("+7"), Some(7));
    assert_eq!(parse_u8("-1"), None);
    assert_eq!(parse_u8("+"), None);
}

#[test]
fn extensions_and_pass_through() {
    assert_eq!(parse_extension("gif"), Ok(Format::Gif));
    assert_eq!(parse_extension("png"), Ok(Format::Png));
    assert_eq!(parse_extension("jpg"), Err(ApplyError::UnsupportedExtension));
    let empty = parse_commands(&vec![]).unwrap();
    assert!(passes_through(Format::Gif, &empty));
    assert!(!passes_through(Format::Png, &empty));
    let scaled = parse_commands(&vec![entry("resize", "2")]).unwrap();
    assert!(!passes_through(Format::Gif, &scaled));
}

#[test]
fn frames_must_share_a_size() {
    assert!(frames_ok(&red_green()));
    let mixed = vec![solid(2, 2, [0, 0, 0, 255], 5), solid(3, 2, [0, 0, 0, 255], 5)];
    assert!(!frames_ok(&mixed));
    let short = vec![Frame::from_parts(2, 2, vec![0; 3], get_delay(2))];
    assert!(!frames_ok(&short));
}

#[test]
fn random_numbers_are_seeded() {
    let mut a = Rng::new(42);
    let mut b = Rng::new(42);
    for _ in 0..10 {
        let x = get_random_u32(&mut a, 3, 9);
        assert_eq!(x, get_random_u32(&mut b, 3, 9));
        assert!((3..9).contains(&x));
    }
    assert_eq!(transparent(8), vec![0; 8]);
}

#[test]
fn slide_shifts_round_then_wrap() {
    let source = opaque_pattern(4, 2, 5);
    let mut frames = vec![Frame::from_parts(4, 2, source.data.clone(), get_delay(5))];
    let mut rng = Rng::new(12);
    slide::slide(&mut frames, dec("8"), slide::Direction::Forwards, &mut rng);
    assert_eq!(frames.len(), 10);
    let expected = [0u32, 0, 1, 1, 2, 2, 2, 3, 3, 0];
    for (i, shift) in expected.iter().enumerate() {
        assert_eq!(frames[i].data, remap(&source.data, 4, 2, PixelMap::RowsRight(*shift)), "frame {}", i);
    }
}

#[test]
fn wiggle_moves_stripes_by_phase() {
    let source = opaque_pattern(50, 48, 5);
    let mut frames = vec![Frame::from_parts(50, 48, source.data.clone(), get_delay(5))];
    let mut rng = Rng::new(13);
    gif_effects::wiggle::wiggle(&mut frames, dec("8"), &mut rng);
    assert_eq!(frames.len(), 12);
    let row = |data: &Vec<u8>, y: usize| data[y * 200..(y + 1) * 200].to_vec();
    let out = &frames[1].data;
    assert_eq!(row(out, 0), row(&source.data, 0));
    let moved = row(out, 1);
    let unmoved = row(&source.data, 1);
    assert_eq!(&moved[0..196], &unmoved[4..200]);
    assert_eq!(&moved[196..200], &[0, 0, 0, 0]);
}

#[test]
fn rain_draws_the_same_drops_from_a_seed() {
    let mut a: Vec<Frame> = (0..12).map(|_| solid(20, 20, [0, 0, 0, 255], 5)).collect();
    let mut b: Vec<Frame> = (0..12).map(|_| solid(20, 20, [0, 0, 0, 255], 5)).collect();
    rain(&mut a, RainType::Glitter, &mut Rng::new(21));
    rain(&mut b, RainType::Glitter, &mut Rng::new(21));
    let da: Vec<Vec<u8>> = a.iter().map(|f| f.data.clone()).collect();
    let db: Vec<Vec<u8>> = b.iter().map(|f| f.data.clone()).collect();
    assert_eq!(da, db);
    assert!(a[0].data.chunks(4).any(|px| px != [0, 0, 0, 255]));
}

#[test]
fn drops_fall_by_their_speed() {
    let mut rng = Rng::new(3);
    let mut drop = gif_effects::rain::Drop::new(10, 100, 4, RainType::Regular, &mut rng);
    let (y, speed) = (drop.y as u64, drop.speed);
    drop.fall(&mut rng);
    if y + speed > 100 {
        assert_eq!(drop.y, 0);
    } else {
        assert_eq!(drop.y as u64, y + speed);
    }
    assert!(speed >= 4 && speed < 8);
}
