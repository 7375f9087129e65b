//! How the scene displays a layer's buffer.
//!
//! A source describes what its buffer **is**; these describe how the plane
//! scanning it out should be **configured**.

use vstd::prelude::*;
use crate::signaling::{ColorPrimaries, TransferFunction};

verus! {

/// A rectangle in whole pixels. Positions are signed: a plane may extend
/// off-screen.
#[derive(Debug, Clone, Copy, PartialEq, Eq, Structural)]
pub struct Rect {
    /// Left edge.
    pub x: i32,
    /// Top edge.
    pub y: i32,
    /// Width.
    pub w: u32,
    /// Height.
    pub h: u32,
}

impl Default for Rect {
    /// The empty rectangle at the origin.
    fn default() -> (rect: Self)
        ensures
            rect == (Rect { x: 0, y: 0, w: 0, h: 0 }),
    {
        Rect { x: 0, y: 0, w: 0, h: 0 }
    }
}

/// How a layer should be displayed.
#[derive(Debug, Clone, Copy, PartialEq, Eq, Structural)]
pub struct DisplayParams {
    /// Region of the **buffer** to show. A zero width or height means the
    /// buffer's full extent.
    pub src_rect: Rect,
    /// Region of the **CRTC** to show it on.
    pub dst_rect: Rect,
    /// Rotate and reflect bits. Zero means no rotation, and nothing is written.
    pub rotation: u64,
    /// Per-plane alpha, if the caller set one.
    pub alpha: Option<u16>,
    /// Stacking position, if the caller set one.
    pub zpos: Option<u64>,
    /// The container colorimetry this layer's content is in, if the producer
    /// said.
    pub color_primaries: Option<ColorPrimaries>,
    /// The transfer function the content is encoded with. `None` is the SDR
    /// transfer.
    pub source_eotf: Option<TransferFunction>,
}

/// The display of a layer nothing has been said about.
pub open spec fn unset_display() -> DisplayParams {
    DisplayParams {
        src_rect: Rect { x: 0, y: 0, w: 0, h: 0 },
        dst_rect: Rect { x: 0, y: 0, w: 0, h: 0 },
        rotation: 0,
        alpha: None,
        zpos: None,
        color_primaries: None,
        source_eotf: None,
    }
}

impl Default for DisplayParams {
    fn default() -> (params: Self)
        ensures
            params == unset_display(),
    {
        DisplayParams {
            src_rect: Rect { x: 0, y: 0, w: 0, h: 0 },
            dst_rect: Rect { x: 0, y: 0, w: 0, h: 0 },
            rotation: 0,
            alpha: None,
            zpos: None,
            color_primaries: None,
            source_eotf: None,
        }
    }
}

/// Convert whole pixels to the 16.16 fixed point KMS expects for `SRC_*`.
pub fn to_16_16(pixels: u32) -> (fixed: u64)
    ensures
        fixed == pixels * 0x1_0000,
{
    assert((pixels as u64) << 16u64 == (pixels as u64) * 0x1_0000u64) by (bit_vector)
        requires
            pixels <= 0xFFFF_FFFFu32,
    ;
    (pixels as u64) << 16
}

/// Fixed point loses nothing: the pixel count is read back by division.
pub proof fn law_fixed_point_round_trips(pixels: u32)
    ensures
        (pixels * 0x1_0000) / 0x1_0000 == pixels,
        (pixels * 0x1_0000) % 0x1_0000 == 0,
{
}

/// A layer nothing has been said about takes its buffer as it is: no rectangle,
/// no rotation, and everything else left to the plane.
pub proof fn law_nothing_said_leaves_everything_alone()
    ensures
        ({
            let display = unset_display();
            &&& display.src_rect.x == 0 && display.src_rect.y == 0
            &&& display.src_rect.w == 0 && display.src_rect.h == 0
            &&& display.dst_rect.x == 0 && display.dst_rect.y == 0
            &&& display.dst_rect.w == 0 && display.dst_rect.h == 0
            &&& display.rotation == 0
            &&& display.alpha is None
            &&& display.zpos is None
            &&& display.color_primaries is None
            &&& display.source_eotf is None
        }),
{
}

} // verus!
