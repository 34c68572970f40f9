//! Turns RGB frames into text frames by error-diffusion dithering over a
//! glyph ramp, stores frames as one text stream, reads such a stream back,
//! and decides, step by step, how a player paces the frames.

pub mod error;
pub mod luminance;
pub mod dither;
pub mod stream;
pub mod playback;
pub mod ordering;
pub mod convert;
mod text;
