//! What the paintings share.
use vstd::prelude::*;

verus! {

/// The colours shared by every painting, each as a 32-bit value with the
/// alpha channel in its highest byte, then red, green and blue.
pub struct Palette;

impl Palette {
    /// A yellow beige, usually used for background.
    pub const BEIGE: u32 = 0xfffceccb;

    /// Darker beige, might come in handy.
    pub const DARK_BEIGE: u32 = 0xffc9bda3;

    /// The darkest of the beiges.
    pub const DARKER_BEIGE: u32 = 0xff968d7a;

    /// A red, for details.
    pub const RED: u32 = 0xffff0000;

    /// Black as night.
    pub const BLACK: u32 = 0xff000000;

    /// One step from black.
    pub const DARK_GRAY: u32 = 0xff191919;

    /// Two steps from black.
    pub const GRAY: u32 = 0xff333333;

    /// White, like fresh snow.
    pub const WHITE: u32 = 0xffffffff;
}

} // verus!
