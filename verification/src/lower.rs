//! Lowering a scene layer into the plane properties that show it.

use vstd::prelude::*;
use crate::display::{to_16_16, DisplayParams};
use crate::planes::{
    law_positions_round_trip, signed_position, to_unsigned_slot, unsigned_slot, Layer, PropTag,
    TagTable,
};
use crate::source::{BindingModel, SourceFormat};

verus! {

/// Everything [`lower_layer`] needs about a layer.
#[derive(Debug, Clone, Copy, PartialEq, Eq, Structural)]
pub struct LoweringInput {
    /// How to display the buffer.
    pub display: DisplayParams,
    /// What the buffer is.
    pub format: SourceFormat,
    /// Who owns the `FB_ID` write.
    pub binding: BindingModel,
    /// The framebuffer this frame, ignored for a driver-owned binding.
    pub fb_id: u32,
    /// The CRTC this scene drives.
    pub crtc_id: u32,
    /// A stacking position to use when the caller set none.
    pub default_zpos: Option<u64>,
}

/// A size of zero stands for the whole extent.
pub open spec fn or_extent(size: u32, extent: u32) -> u32 {
    if size == 0 {
        extent
    } else {
        size
    }
}

/// The first value, or else the second.
pub open spec fn first_of(first: Option<u64>, second: Option<u64>) -> Option<u64> {
    match first {
        Some(value) => Some(value),
        None => second,
    }
}

/// The property bag after lowering onto one that held `before`.
///
/// `FB_ID` is left alone for a driver-owned binding. Rotation, stacking and
/// alpha are written only where something asked for them: a stacking position
/// of zero nobody wanted rules out every plane pinned elsewhere.
pub open spec fn lowered_properties(input: LoweringInput, before: TagTable<u64>) -> TagTable<u64> {
    let display = input.display;
    TagTable {
        fb_id: if input.binding == BindingModel::DriverOwnsBinding {
            before.fb_id
        } else {
            Some(input.fb_id as u64)
        },
        crtc_id: Some(input.crtc_id as u64),
        crtc_x: Some(unsigned_slot(display.dst_rect.x)),
        crtc_y: Some(unsigned_slot(display.dst_rect.y)),
        crtc_w: Some(display.dst_rect.w as u64),
        crtc_h: Some(display.dst_rect.h as u64),
        src_x: Some((unsigned_slot(display.src_rect.x) * 0x1_0000) as u64),
        src_y: Some((unsigned_slot(display.src_rect.y) * 0x1_0000) as u64),
        src_w: Some((or_extent(display.src_rect.w, input.format.width) * 0x1_0000) as u64),
        src_h: Some((or_extent(display.src_rect.h, input.format.height) * 0x1_0000) as u64),
        pixel_format: Some(input.format.fourcc as u64),
        fb_modifier: Some(input.format.modifier),
        rotation: if display.rotation != 0 {
            Some(display.rotation)
        } else {
            before.rotation
        },
        zpos: first_of(first_of(display.zpos, input.default_zpos), before.zpos),
        alpha: match display.alpha {
            Some(alpha) => Some(alpha as u64),
            None => before.alpha,
        },
        in_fence_fd: before.in_fence_fd,
    }
}

/// The layer after lowering onto one that was `before`.
pub open spec fn lowered(input: LoweringInput, before: Layer) -> Layer {
    Layer {
        properties: lowered_properties(input, before.properties),
        externally_bound: input.binding == BindingModel::DriverOwnsBinding,
        ..before
    }
}

/// Copy a scene layer's state into the plane property bag.
pub fn lower_layer(input: &LoweringInput, dst: &mut Layer)
    ensures
        *final(dst) == lowered(*input, *old(dst)),
{
    let display: DisplayParams = input.display;
    let format: SourceFormat = input.format;
    let driver_owns_binding: bool = input.binding == BindingModel::DriverOwnsBinding;

    dst.set_externally_bound(driver_owns_binding);
    if !driver_owns_binding {
        dst.set_property(PropTag::FbId, input.fb_id as u64);
    }
    dst.set_property(PropTag::CrtcId, input.crtc_id as u64);

    // Destination is whole signed pixels; source is 16.16 fixed point.
    dst.set_property(PropTag::CrtcX, to_unsigned_slot(display.dst_rect.x));
    dst.set_property(PropTag::CrtcY, to_unsigned_slot(display.dst_rect.y));
    dst.set_property(PropTag::CrtcW, display.dst_rect.w as u64);
    dst.set_property(PropTag::CrtcH, display.dst_rect.h as u64);

    let src_w: u32 = if display.src_rect.w == 0 { format.width } else { display.src_rect.w };
    let src_h: u32 = if display.src_rect.h == 0 { format.height } else { display.src_rect.h };
    dst.set_property(PropTag::SrcX, to_16_16(to_unsigned_slot(display.src_rect.x) as u32));
    dst.set_property(PropTag::SrcY, to_16_16(to_unsigned_slot(display.src_rect.y) as u32));
    dst.set_property(PropTag::SrcW, to_16_16(src_w));
    dst.set_property(PropTag::SrcH, to_16_16(src_h));

    dst.set_property(PropTag::PixelFormat, format.fourcc as u64);
    dst.set_property(PropTag::FbModifier, format.modifier);

    if display.rotation != 0 {
        dst.set_property(PropTag::Rotation, display.rotation);
    }
    let zpos: Option<u64> = match display.zpos {
        Some(zpos) => Some(zpos),
        None => input.default_zpos,
    };
    if let Some(zpos) = zpos {
        dst.set_property(PropTag::Zpos, zpos);
    }
    if let Some(alpha) = display.alpha {
        dst.set_property(PropTag::Alpha, alpha as u64);
    }
}

// --- laws --------------------------------------------------------------------

/// A lowered layer always names its CRTC, and never a source size of zero
/// unless the buffer itself has none.
pub proof fn law_lowered_layer_can_be_committed(input: LoweringInput, before: Layer)
    ensures
        lowered(input, before).properties.crtc_id == Some(input.crtc_id as u64),
        input.format.width > 0 ==> lowered(input, before).properties.src_w->0 > 0,
        input.format.height > 0 ==> lowered(input, before).properties.src_h->0 > 0,
{
}

/// Showing the whole buffer at its own size does not read as scaling.
pub proof fn law_full_extent_is_not_scaling(input: LoweringInput, before: Layer)
    requires
        input.display.src_rect.w == 0,
        input.display.src_rect.h == 0,
    ensures
        ({
            let layer = lowered(input, before);
            (layer.or_zero(PropTag::SrcW) / 0x1_0000 == layer.or_zero(PropTag::CrtcW)
                && layer.or_zero(PropTag::SrcH) / 0x1_0000 == layer.or_zero(PropTag::CrtcH)) <==> (
            input.display.dst_rect.w == input.format.width && input.display.dst_rect.h
                == input.format.height)
        }),
{
}

/// Lowering onto a layer that already holds the same lowering changes nothing.
pub proof fn law_lowering_is_idempotent(input: LoweringInput, before: Layer)
    ensures
        lowered(input, lowered(input, before)) == lowered(input, before),
{
}

/// A lowered layer is shown where and as it was asked: read back, its
/// destination is the one asked for, its source is the part asked for or the
/// whole buffer, and its format is the buffer's.
pub proof fn law_lowering_shows_the_layer_as_asked(input: LoweringInput, before: Layer)
    ensures
        ({
            let held = lowered(input, before).properties;
            let display = input.display;
            &&& signed_position(held.crtc_x->0) == display.dst_rect.x
            &&& signed_position(held.crtc_y->0) == display.dst_rect.y
            &&& held.crtc_w == Some(display.dst_rect.w as u64)
            &&& held.crtc_h == Some(display.dst_rect.h as u64)
            &&& held.src_x->0 % 0x1_0000 == 0 && signed_position((held.src_x->0 / 0x1_0000) as u64)
                == display.src_rect.x
            &&& held.src_y->0 % 0x1_0000 == 0 && signed_position((held.src_y->0 / 0x1_0000) as u64)
                == display.src_rect.y
            &&& held.src_w->0 == 0x1_0000 * if display.src_rect.w != 0 {
                display.src_rect.w as int
            } else {
                input.format.width as int
            }
            &&& held.src_h->0 == 0x1_0000 * if display.src_rect.h != 0 {
                display.src_rect.h as int
            } else {
                input.format.height as int
            }
            &&& held.crtc_x is Some && held.crtc_y is Some && held.src_x is Some && held.src_y
                is Some && held.src_w is Some && held.src_h is Some
            &&& held.crtc_id == Some(input.crtc_id as u64)
            &&& held.pixel_format == Some(input.format.fourcc as u64)
            &&& held.fb_modifier == Some(input.format.modifier)
        }),
{
    let display = input.display;
    law_positions_round_trip(display.dst_rect.x);
    law_positions_round_trip(display.dst_rect.y);
    law_positions_round_trip(display.src_rect.x);
    law_positions_round_trip(display.src_rect.y);
}

/// The framebuffer is attached by the scene unless the driver owns the binding;
/// rotation, stacking and alpha are set where something asked for them and left
/// as they were otherwise. A stacking position the caller set goes before the
/// default.
pub proof fn law_lowering_sets_only_what_was_asked(input: LoweringInput, before: Layer)
    ensures
        ({
            let after = lowered(input, before);
            let display = input.display;
            &&& input.binding == BindingModel::SceneSubmitsFbId ==> after.properties.fb_id == Some(
                input.fb_id as u64,
            ) && !after.externally_bound
            &&& input.binding == BindingModel::DriverOwnsBinding ==> after.properties.fb_id
                == before.properties.fb_id && after.externally_bound
            &&& display.rotation != 0 ==> after.properties.rotation == Some(display.rotation)
            &&& display.rotation == 0 ==> after.properties.rotation == before.properties.rotation
            &&& display.zpos is Some ==> after.properties.zpos == display.zpos
            &&& display.zpos is None && input.default_zpos is Some ==> after.properties.zpos
                == input.default_zpos
            &&& display.zpos is None && input.default_zpos is None ==> after.properties.zpos
                == before.properties.zpos
            &&& display.alpha matches Some(alpha) ==> after.properties.alpha == Some(alpha as u64)
            &&& display.alpha is None ==> after.properties.alpha == before.properties.alpha
            &&& after.properties.in_fence_fd == before.properties.in_fence_fd
            &&& after.content_type == before.content_type
            &&& after.update_hint_hz == before.update_hint_hz
            &&& after.app_priority == before.app_priority
        }),
{
}

} // verus!
