//! A text console on a linear framebuffer: a byte stream is drawn as
//! glyphs into a shadow region that holds the authoritative pixels, and
//! shown on the device surface pixel by pixel or, when scrolling, in one
//! pass after the rows have moved in the shadow.

pub mod font;
pub mod framebuffer;
pub mod writer;
