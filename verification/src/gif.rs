//! GIF: the format's blocks, the canvas that frames are drawn onto, palette
//! quantization and the encoder.
pub mod canvas;
pub mod decoder;
pub mod encoder;
pub mod format;
pub mod label;
pub mod median_cut;
pub mod prefix;
pub mod quantize;
pub mod round_trip;
pub mod showing;
pub mod sort;
