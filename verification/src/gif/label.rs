//! Block labels.
use vstd::prelude::*;

verus! {

/// Introduces an extension block.
pub const EXTENSION: u8 = 0x21;

/// Introduces an image descriptor.
pub const IMAGE: u8 = 0x2C;

/// Ends the stream.
pub const TRAILER: u8 = 0x3B;

/// Graphic control extension: delay, disposal, transparency.
pub const GRAPHIC_CONTROL: u8 = 0xF9;

} // verus!
