//! Verified still-image codecs.
//!
//! Two formats live here. [`avif`] reads the AVIF container and the still-picture
//! subset of the AV1 bitstream underneath it; [`gif`] reads and writes GIF. Every
//! function states in its contract what it computes, over mathematical models of
//! the bytes it reads, and is proved against it.
pub mod error;
pub mod math;
pub mod pixel;
pub mod text;
pub mod av1;
pub mod avif;
pub mod gif;
