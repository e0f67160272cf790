//! Effects on animated images: a pipeline of frame operators over RGBA frames,
//! with the alignment engine that makes every periodic effect loop cleanly.
//!
//! Parameters are decimals held in millionths and delays are ratios of
//! milliseconds, so every period and step is computed exactly. Decoding and
//! encoding, and the pixel work that needs floating point (turning a frame by
//! an angle, shifting hues), are left to the caller: the effects that need it
//! hand back the exact angle for each frame.
pub mod align;
pub mod angle;
pub mod command;
pub mod flip;
pub mod frame;
pub mod image_ops;
pub mod infinite;
pub mod number;
pub mod pipeline;
pub mod pixels;
pub mod rain;
pub mod rainbow;
pub mod resize;
pub mod rng;
pub mod rotate;
pub mod shake;
pub mod slide;
pub mod spin;
pub mod tempo;
pub mod wiggle;
