use std::io::Cursor;

use gif_effects::frame::{Delay, Frame};
use gif_effects::pipeline::{apply_command, frames_ok, parse_commands, png_frame};
use gif_effects::rng::Rng;
use image::codecs::gif::{GifDecoder, GifEncoder, Repeat};
use image::codecs::png::{PngDecoder, PngEncoder};
use image::{AnimationDecoder, DynamicImage, ImageBuffer, ImageEncoder, Rgba, RgbaImage};

fn entry(name: &str, param: &str) -> Vec<(String, String)> {
    vec![("name".to_string(), name.to_string()), ("param".to_string(), param.to_string())]
}

fn encode(frames: Vec<Frame>) -> Vec<u8> {
    let mut out = Vec::new();
    {
        let mut writer = GifEncoder::new_with_speed(&mut out, 10);
        writer.set_repeat(Repeat::Infinite).unwrap();
        for f in frames {
            let buffer: RgbaImage = ImageBuffer::from_raw(f.width, f.height, f.data).unwrap();
            let delay = image::Delay::from_numer_denom_ms(f.delay.numer, f.delay.denom);
            writer.encode_frame(image::Frame::from_parts(buffer, f.left, f.top, delay)).unwrap();
        }
    }
    out
}

fn decode(bytes: &[u8]) -> Vec<Frame> {
    let reader = GifDecoder::new(Cursor::new(bytes)).unwrap();
    reader
        .into_frames()
        .collect_frames()
        .unwrap()
        .into_iter()
        .map(|f| {
            let (numer, denom) = f.delay().numer_denom_ms();
            let (left, top) = (f.left(), f.top());
            let buffer = f.into_buffer();
            let (width, height) = buffer.dimensions();
            Frame { width, height, data: buffer.into_raw(), left, top, delay: Delay { numer, denom } }
        })
        .collect()
}

fn centisecs(d: Delay) -> u32 {
    d.numer * d.denom / 10
}

fn loops_forever(bytes: &[u8]) -> bool {
    bytes.windows(11).any(|w| w == b"NETSCAPE2.0")
}

fn solid(rgba: [u8; 4]) -> Frame {
    Frame { width: 2, height: 2, data: rgba.repeat(4), left: 0, top: 0, delay: Delay { numer: 100, denom: 1 } }
}

#[test]
fn reversed_gif_round_trip() {
    let input = encode(vec![solid([255, 0, 0, 255]), solid([0, 255, 0, 255])]);
    let mut frames = decode(&input);
    assert!(frames_ok(&frames));
    let commands = parse_commands(&vec![entry("reverse", "0")]).unwrap();
    let mut rng = Rng::new(7);
    for c in commands.commands.iter() {
        apply_command(&mut frames, *c, &mut rng);
    }
    let output = encode(frames);
    assert!(loops_forever(&output));
    let back = decode(&output);
    assert_eq!(back.len(), 2);
    assert_eq!(&back[0].data[0..4], &[0, 255, 0, 255]);
    assert_eq!(&back[1].data[0..4], &[255, 0, 0, 255]);
    assert!(back.iter().all(|f| centisecs(f.delay) == 10));
}

#[test]
fn png_round_trip_keeps_transparent_black() {
    let mut pixels = vec![90u8; 4 * 4 * 4];
    pixels[3] = 255;
    for px in pixels.chunks_mut(4) {
        px[3] = 255;
    }
    pixels[20..24].copy_from_slice(&[17, 34, 51, 0]);
    let mut png = Vec::new();
    PngEncoder::new(&mut png).write_image(&pixels, 4, 4, image::ColorType::Rgba8).unwrap();
    let image = DynamicImage::from_decoder(PngDecoder::new(Cursor::new(&png)).unwrap()).unwrap().into_rgba8();
    let frame = png_frame(4, 4, image.into_raw());
    assert_eq!(&frame.data[20..24], &[0, 0, 0, 0]);
    let output = encode(vec![frame]);
    assert!(loops_forever(&output));
    let back = decode(&output);
    assert_eq!(back.len(), 1);
    assert_eq!(&back[0].data[20..24], &[0, 0, 0, 0]);
    assert_eq!(centisecs(back[0].delay), 2);
    let _ = Rgba([0u8, 0, 0, 0]);
}
