//! The pixel formats the library names itself.
//!
//! A `FourCC` is four ASCII characters packed little-endian into a `u32`.

use vstd::prelude::*;

verus! {

/// `AR24`: 8-bit alpha, red, green and blue.
pub const ARGB8888: u32 = 0x3432_5241;

/// `XR24`: 8-bit red, green and blue under an unused byte.
pub const XRGB8888: u32 = 0x3432_5258;

/// `NV12`: a luma plane followed by interleaved, subsampled chroma.
pub const NV12: u32 = 0x3231_564E;

/// The `DRM_FORMAT_MOD_LINEAR` modifier.
pub const MOD_LINEAR: u64 = 0;

/// The `DRM_FORMAT_MOD_INVALID` modifier: no modifier was stated.
pub const MOD_INVALID: u64 = 0x00FF_FFFF_FFFF_FFFF;

} // verus!
