//! Planes, and the property bags written to them.

use vstd::prelude::*;
use crate::display::Rect;

verus! {

/// A layer's identity, as plane assignments name it.
#[derive(Debug, Clone, Copy, PartialEq, Eq, PartialOrd, Ord, Hash, Structural)]
pub struct LayerId(pub u64);

/// What a layer shows, as a hint to whoever places it.
#[derive(Debug, Clone, Copy, PartialEq, Eq, Structural)]
pub enum ContentType {
    /// Nothing in particular.
    Generic,
    /// Video.
    Video,
    /// User interface.
    Ui,
    /// A cursor.
    Cursor,
}

/// The plane properties the library knows by name.
#[derive(Debug, Clone, Copy, PartialEq, Eq, PartialOrd, Ord, Hash, Structural)]
pub enum PropTag {
    /// The framebuffer to scan out.
    FbId,
    /// The CRTC the plane feeds.
    CrtcId,
    /// Destination left edge, signed in an unsigned slot.
    CrtcX,
    /// Destination top edge, signed in an unsigned slot.
    CrtcY,
    /// Destination width.
    CrtcW,
    /// Destination height.
    CrtcH,
    /// Source left edge, 16.16.
    SrcX,
    /// Source top edge, 16.16.
    SrcY,
    /// Source width, 16.16.
    SrcW,
    /// Source height, 16.16.
    SrcH,
    /// The buffer's `FourCC`: a hint, never sent to the kernel.
    PixelFormat,
    /// The buffer's modifier: a hint, never sent to the kernel.
    FbModifier,
    /// Rotate and reflect bits.
    Rotation,
    /// Stacking position.
    Zpos,
    /// Per-plane alpha.
    Alpha,
    /// The fence the kernel waits on before scanout.
    InFenceFd,
}

/// How many tags there are.
pub const TAG_COUNT: usize = 16;

impl PropTag {
    /// The tag's place in the fixed order of tags.
    pub open spec fn index(self) -> int {
        match self {
            PropTag::FbId => 0,
            PropTag::CrtcId => 1,
            PropTag::CrtcX => 2,
            PropTag::CrtcY => 3,
            PropTag::CrtcW => 4,
            PropTag::CrtcH => 5,
            PropTag::SrcX => 6,
            PropTag::SrcY => 7,
            PropTag::SrcW => 8,
            PropTag::SrcH => 9,
            PropTag::PixelFormat => 10,
            PropTag::FbModifier => 11,
            PropTag::Rotation => 12,
            PropTag::Zpos => 13,
            PropTag::Alpha => 14,
            PropTag::InFenceFd => 15,
        }
    }

    /// The tag at a place in the fixed order.
    pub open spec fn nth(place: int) -> PropTag {
        if place == 0 {
            PropTag::FbId
        } else if place == 1 {
            PropTag::CrtcId
        } else if place == 2 {
            PropTag::CrtcX
        } else if place == 3 {
            PropTag::CrtcY
        } else if place == 4 {
            PropTag::CrtcW
        } else if place == 5 {
            PropTag::CrtcH
        } else if place == 6 {
            PropTag::SrcX
        } else if place == 7 {
            PropTag::SrcY
        } else if place == 8 {
            PropTag::SrcW
        } else if place == 9 {
            PropTag::SrcH
        } else if place == 10 {
            PropTag::PixelFormat
        } else if place == 11 {
            PropTag::FbModifier
        } else if place == 12 {
            PropTag::Rotation
        } else if place == 13 {
            PropTag::Zpos
        } else if place == 14 {
            PropTag::Alpha
        } else {
            PropTag::InFenceFd
        }
    }

    /// The tag at a place in the fixed order.
    pub fn at(place: usize) -> (tag: PropTag)
        requires
            place < TAG_COUNT,
        ensures
            tag == PropTag::nth(place as int),
            tag.index() == place,
    {
        if place == 0 {
            PropTag::FbId
        } else if place == 1 {
            PropTag::CrtcId
        } else if place == 2 {
            PropTag::CrtcX
        } else if place == 3 {
            PropTag::CrtcY
        } else if place == 4 {
            PropTag::CrtcW
        } else if place == 5 {
            PropTag::CrtcH
        } else if place == 6 {
            PropTag::SrcX
        } else if place == 7 {
            PropTag::SrcY
        } else if place == 8 {
            PropTag::SrcW
        } else if place == 9 {
            PropTag::SrcH
        } else if place == 10 {
            PropTag::PixelFormat
        } else if place == 11 {
            PropTag::FbModifier
        } else if place == 12 {
            PropTag::Rotation
        } else if place == 13 {
            PropTag::Zpos
        } else if place == 14 {
            PropTag::Alpha
        } else {
            PropTag::InFenceFd
        }
    }

    /// Every tag, in the fixed order.
    pub open spec fn all_spec() -> Seq<PropTag> {
        Seq::new(TAG_COUNT as nat, |i: int| PropTag::nth(i))
    }

    /// Every tag, in the fixed order.
    pub fn all() -> (tags: Vec<PropTag>)
        ensures
            tags@ == PropTag::all_spec(),
    {
        let mut tags: Vec<PropTag> = Vec::new();
        let mut i: usize = 0;
        while i < TAG_COUNT
            invariant
                0 <= i <= TAG_COUNT,
                tags@ == PropTag::all_spec().take(i as int),
            decreases TAG_COUNT - i,
        {
            tags.push(PropTag::at(i));
            assert(tags@ =~= PropTag::all_spec().take(i + 1));
            i += 1;
        }
        assert(tags@ =~= PropTag::all_spec());
        tags
    }

    /// The property's KMS name.
    pub open spec fn name_spec(self) -> Seq<char> {
        match self {
            PropTag::FbId => "FB_ID"@,
            PropTag::CrtcId => "CRTC_ID"@,
            PropTag::CrtcX => "CRTC_X"@,
            PropTag::CrtcY => "CRTC_Y"@,
            PropTag::CrtcW => "CRTC_W"@,
            PropTag::CrtcH => "CRTC_H"@,
            PropTag::SrcX => "SRC_X"@,
            PropTag::SrcY => "SRC_Y"@,
            PropTag::SrcW => "SRC_W"@,
            PropTag::SrcH => "SRC_H"@,
            PropTag::PixelFormat => "pixel_format"@,
            PropTag::FbModifier => "FB_MODIFIER"@,
            PropTag::Rotation => "rotation"@,
            PropTag::Zpos => "zpos"@,
            PropTag::Alpha => "alpha"@,
            PropTag::InFenceFd => "IN_FENCE_FD"@,
        }
    }

    /// The property's KMS name.
    pub fn name(self) -> (name: &'static str)
        ensures
            name@ == self.name_spec(),
    {
        match self {
            PropTag::FbId => "FB_ID",
            PropTag::CrtcId => "CRTC_ID",
            PropTag::CrtcX => "CRTC_X",
            PropTag::CrtcY => "CRTC_Y",
            PropTag::CrtcW => "CRTC_W",
            PropTag::CrtcH => "CRTC_H",
            PropTag::SrcX => "SRC_X",
            PropTag::SrcY => "SRC_Y",
            PropTag::SrcW => "SRC_W",
            PropTag::SrcH => "SRC_H",
            PropTag::PixelFormat => "pixel_format",
            PropTag::FbModifier => "FB_MODIFIER",
            PropTag::Rotation => "rotation",
            PropTag::Zpos => "zpos",
            PropTag::Alpha => "alpha",
            PropTag::InFenceFd => "IN_FENCE_FD",
        }
    }

    /// Whether the tag is a hint on the property bag rather than a property
    /// the kernel has.
    pub open spec fn is_hint_spec(self) -> bool {
        self == PropTag::PixelFormat || self == PropTag::FbModifier
    }

    /// Whether the tag is a hint on the property bag rather than a property
    /// the kernel has.
    pub fn is_hint(self) -> (hint: bool)
        ensures
            hint == self.is_hint_spec(),
    {
        matches!(self, PropTag::PixelFormat | PropTag::FbModifier)
    }
}

/// At most one value for each tag.
#[derive(Debug, PartialEq, Eq, Structural)]
pub struct TagTable<T> {
    /// The value for [`PropTag::FbId`].
    pub fb_id: Option<T>,
    /// The value for [`PropTag::CrtcId`].
    pub crtc_id: Option<T>,
    /// The value for [`PropTag::CrtcX`].
    pub crtc_x: Option<T>,
    /// The value for [`PropTag::CrtcY`].
    pub crtc_y: Option<T>,
    /// The value for [`PropTag::CrtcW`].
    pub crtc_w: Option<T>,
    /// The value for [`PropTag::CrtcH`].
    pub crtc_h: Option<T>,
    /// The value for [`PropTag::SrcX`].
    pub src_x: Option<T>,
    /// The value for [`PropTag::SrcY`].
    pub src_y: Option<T>,
    /// The value for [`PropTag::SrcW`].
    pub src_w: Option<T>,
    /// The value for [`PropTag::SrcH`].
    pub src_h: Option<T>,
    /// The value for [`PropTag::PixelFormat`].
    pub pixel_format: Option<T>,
    /// The value for [`PropTag::FbModifier`].
    pub fb_modifier: Option<T>,
    /// The value for [`PropTag::Rotation`].
    pub rotation: Option<T>,
    /// The value for [`PropTag::Zpos`].
    pub zpos: Option<T>,
    /// The value for [`PropTag::Alpha`].
    pub alpha: Option<T>,
    /// The value for [`PropTag::InFenceFd`].
    pub in_fence_fd: Option<T>,
}

impl<T: Copy> Clone for TagTable<T> {
    fn clone(&self) -> (table: Self)
        ensures
            table == *self,
    {
        *self
    }
}

impl<T: Copy> Copy for TagTable<T> {

}

impl<T> TagTable<T> {
    /// The value for a tag.
    pub open spec fn value(self, tag: PropTag) -> Option<T> {
        match tag {
            PropTag::FbId => self.fb_id,
            PropTag::CrtcId => self.crtc_id,
            PropTag::CrtcX => self.crtc_x,
            PropTag::CrtcY => self.crtc_y,
            PropTag::CrtcW => self.crtc_w,
            PropTag::CrtcH => self.crtc_h,
            PropTag::SrcX => self.src_x,
            PropTag::SrcY => self.src_y,
            PropTag::SrcW => self.src_w,
            PropTag::SrcH => self.src_h,
            PropTag::PixelFormat => self.pixel_format,
            PropTag::FbModifier => self.fb_modifier,
            PropTag::Rotation => self.rotation,
            PropTag::Zpos => self.zpos,
            PropTag::Alpha => self.alpha,
            PropTag::InFenceFd => self.in_fence_fd,
        }
    }

    /// The table with nothing in it.
    pub open spec fn empty_spec() -> TagTable<T> {
        TagTable {
            fb_id: None,
            crtc_id: None,
            crtc_x: None,
            crtc_y: None,
            crtc_w: None,
            crtc_h: None,
            src_x: None,
            src_y: None,
            src_w: None,
            src_h: None,
            pixel_format: None,
            fb_modifier: None,
            rotation: None,
            zpos: None,
            alpha: None,
            in_fence_fd: None,
        }
    }

    /// The table with nothing in it.
    pub fn empty() -> (table: Self)
        ensures
            table == TagTable::<T>::empty_spec(),
    {
        TagTable {
            fb_id: None,
            crtc_id: None,
            crtc_x: None,
            crtc_y: None,
            crtc_w: None,
            crtc_h: None,
            src_x: None,
            src_y: None,
            src_w: None,
            src_h: None,
            pixel_format: None,
            fb_modifier: None,
            rotation: None,
            zpos: None,
            alpha: None,
            in_fence_fd: None,
        }
    }

    /// This table with one tag's value replaced.
    pub open spec fn with(self, tag: PropTag, value: T) -> TagTable<T> {
        match tag {
            PropTag::FbId => TagTable { fb_id: Some(value), ..self },
            PropTag::CrtcId => TagTable { crtc_id: Some(value), ..self },
            PropTag::CrtcX => TagTable { crtc_x: Some(value), ..self },
            PropTag::CrtcY => TagTable { crtc_y: Some(value), ..self },
            PropTag::CrtcW => TagTable { crtc_w: Some(value), ..self },
            PropTag::CrtcH => TagTable { crtc_h: Some(value), ..self },
            PropTag::SrcX => TagTable { src_x: Some(value), ..self },
            PropTag::SrcY => TagTable { src_y: Some(value), ..self },
            PropTag::SrcW => TagTable { src_w: Some(value), ..self },
            PropTag::SrcH => TagTable { src_h: Some(value), ..self },
            PropTag::PixelFormat => TagTable { pixel_format: Some(value), ..self },
            PropTag::FbModifier => TagTable { fb_modifier: Some(value), ..self },
            PropTag::Rotation => TagTable { rotation: Some(value), ..self },
            PropTag::Zpos => TagTable { zpos: Some(value), ..self },
            PropTag::Alpha => TagTable { alpha: Some(value), ..self },
            PropTag::InFenceFd => TagTable { in_fence_fd: Some(value), ..self },
        }
    }

    /// Set a tag's value.
    pub fn set(&mut self, tag: PropTag, value: T)
        ensures
            *final(self) == old(self).with(tag, value),
    {
        match tag {
            PropTag::FbId => {
                self.fb_id = Some(value);
            },
            PropTag::CrtcId => {
                self.crtc_id = Some(value);
            },
            PropTag::CrtcX => {
                self.crtc_x = Some(value);
            },
            PropTag::CrtcY => {
                self.crtc_y = Some(value);
            },
            PropTag::CrtcW => {
                self.crtc_w = Some(value);
            },
            PropTag::CrtcH => {
                self.crtc_h = Some(value);
            },
            PropTag::SrcX => {
                self.src_x = Some(value);
            },
            PropTag::SrcY => {
                self.src_y = Some(value);
            },
            PropTag::SrcW => {
                self.src_w = Some(value);
            },
            PropTag::SrcH => {
                self.src_h = Some(value);
            },
            PropTag::PixelFormat => {
                self.pixel_format = Some(value);
            },
            PropTag::FbModifier => {
                self.fb_modifier = Some(value);
            },
            PropTag::Rotation => {
                self.rotation = Some(value);
            },
            PropTag::Zpos => {
                self.zpos = Some(value);
            },
            PropTag::Alpha => {
                self.alpha = Some(value);
            },
            PropTag::InFenceFd => {
                self.in_fence_fd = Some(value);
            },
        }
    }
}

impl<T: Copy> TagTable<T> {
    /// The value for a tag, if it has one.
    pub fn get(&self, tag: PropTag) -> (value: Option<T>)
        ensures
            value == self.value(tag),
    {
        match tag {
            PropTag::FbId => self.fb_id,
            PropTag::CrtcId => self.crtc_id,
            PropTag::CrtcX => self.crtc_x,
            PropTag::CrtcY => self.crtc_y,
            PropTag::CrtcW => self.crtc_w,
            PropTag::CrtcH => self.crtc_h,
            PropTag::SrcX => self.src_x,
            PropTag::SrcY => self.src_y,
            PropTag::SrcW => self.src_w,
            PropTag::SrcH => self.src_h,
            PropTag::PixelFormat => self.pixel_format,
            PropTag::FbModifier => self.fb_modifier,
            PropTag::Rotation => self.rotation,
            PropTag::Zpos => self.zpos,
            PropTag::Alpha => self.alpha,
            PropTag::InFenceFd => self.in_fence_fd,
        }
    }
}

/// What a plane was last told, one value per property.
pub type PropertySnapshot = TagTable<u64>;

/// The number an `i32` position occupies in an unsigned property slot.
pub open spec fn unsigned_slot(position: i32) -> u64 {
    (if position < 0 {
        position + 0x1_0000_0000
    } else {
        position as int
    }) as u64
}

/// Put a signed position into an unsigned property slot.
pub fn to_unsigned_slot(position: i32) -> (slot: u64)
    ensures
        slot == unsigned_slot(position),
{
    if position < 0 {
        (position as i64 + 0x1_0000_0000) as u64
    } else {
        position as u64
    }
}

/// The position an unsigned property slot stands for: its low 32 bits, signed.
pub open spec fn signed_position(slot: u64) -> int {
    let low = slot as int % 0x1_0000_0000;
    if low >= 0x8000_0000 {
        low - 0x1_0000_0000
    } else {
        low
    }
}

/// Read a signed position out of an unsigned property slot.
pub fn from_unsigned_slot(slot: u64) -> (position: i32)
    ensures
        position == signed_position(slot),
{
    let low: i64 = (slot % 0x1_0000_0000) as i64;
    if low >= 0x8000_0000 {
        (low - 0x1_0000_0000) as i32
    } else {
        low as i32
    }
}

/// A signed position survives the unsigned slot.
pub proof fn law_positions_round_trip(position: i32)
    ensures
        signed_position(unsigned_slot(position)) == position,
{
}

/// A layer lowered to plane properties, with the hints that place it.
#[derive(Debug, Clone, Copy, PartialEq, Eq, Structural)]
pub struct Layer {
    /// The properties to write.
    pub properties: TagTable<u64>,
    /// Whether a producer outside the scene owns the framebuffer binding.
    pub externally_bound: bool,
    /// What the layer shows.
    pub content_type: ContentType,
    /// The producer's expected refresh rate, or 0.
    pub update_hint_hz: u32,
    /// The application's placement priority.
    pub app_priority: u8,
}

impl Layer {
    /// A layer with no properties.
    pub open spec fn empty() -> Layer {
        Layer {
            properties: TagTable::<u64>::empty_spec(),
            externally_bound: false,
            content_type: ContentType::Generic,
            update_hint_hz: 0,
            app_priority: 0,
        }
    }

    /// A layer with no properties.
    pub fn new() -> (layer: Self)
        ensures
            layer == Layer::empty(),
    {
        Layer {
            properties: TagTable::empty(),
            externally_bound: false,
            content_type: ContentType::Generic,
            update_hint_hz: 0,
            app_priority: 0,
        }
    }

    /// A property's value, if it is set.
    pub fn property(&self, tag: PropTag) -> (value: Option<u64>)
        ensures
            value == self.properties.value(tag),
    {
        self.properties.get(tag)
    }

    /// Set a property.
    pub fn set_property(&mut self, tag: PropTag, value: u64)
        ensures
            *final(self) == (Layer { properties: old(self).properties.with(tag, value), ..*old(self) }),
    {
        self.properties.set(tag, value);
    }

    /// Say whether a producer outside the scene owns the framebuffer binding.
    pub fn set_externally_bound(&mut self, bound: bool)
        ensures
            *final(self) == (Layer { externally_bound: bound, ..*old(self) }),
    {
        self.externally_bound = bound;
    }

    /// Whether a producer outside the scene owns the framebuffer binding.
    pub fn is_externally_bound(&self) -> (bound: bool)
        ensures
            bound == self.externally_bound,
    {
        self.externally_bound
    }

    /// The buffer's `FourCC`, if it is set and fits one.
    pub fn format(&self) -> (fourcc: Option<u32>)
        ensures
            fourcc == match self.properties.pixel_format {
                Some(raw) if raw <= u32::MAX => Some(raw as u32),
                _ => None,
            },
    {
        match self.properties.pixel_format {
            Some(raw) => if raw <= u32::MAX as u64 {
                Some(raw as u32)
            } else {
                None
            },
            None => None,
        }
    }

    /// The buffer's modifier, linear when none is set.
    pub fn modifier(&self) -> (modifier: u64)
        ensures
            modifier == match self.properties.fb_modifier {
                Some(modifier) => modifier,
                None => 0,
            },
    {
        match self.properties.fb_modifier {
            Some(modifier) => modifier,
            None => 0,
        }
    }

    /// A property's value, zero when it is not set.
    pub open spec fn or_zero(self, tag: PropTag) -> u64 {
        match self.properties.value(tag) {
            Some(value) => value,
            None => 0,
        }
    }

    pub(crate) fn value_or_zero(&self, tag: PropTag) -> (value: u64)
        ensures
            value == self.or_zero(tag),
    {
        match self.properties.get(tag) {
            Some(value) => value,
            None => 0,
        }
    }

    /// The destination rectangle, its unset parts zero.
    pub fn crtc_rect(&self) -> (rect: Rect)
        ensures
            rect.x == signed_position(self.or_zero(PropTag::CrtcX)),
            rect.y == signed_position(self.or_zero(PropTag::CrtcY)),
            rect.w == self.or_zero(PropTag::CrtcW) % 0x1_0000_0000,
            rect.h == self.or_zero(PropTag::CrtcH) % 0x1_0000_0000,
    {
        Rect {
            x: from_unsigned_slot(self.value_or_zero(PropTag::CrtcX)),
            y: from_unsigned_slot(self.value_or_zero(PropTag::CrtcY)),
            w: (self.value_or_zero(PropTag::CrtcW) % 0x1_0000_0000) as u32,
            h: (self.value_or_zero(PropTag::CrtcH) % 0x1_0000_0000) as u32,
        }
    }

    /// Whether the source and destination sizes differ, in whole pixels.
    pub fn requires_scaling(&self) -> (scaled: bool)
        ensures
            scaled == (self.or_zero(PropTag::SrcW) / 0x1_0000 != self.or_zero(PropTag::CrtcW)
                || self.or_zero(PropTag::SrcH) / 0x1_0000 != self.or_zero(PropTag::CrtcH)),
    {
        self.value_or_zero(PropTag::SrcW) / 0x1_0000 != self.value_or_zero(PropTag::CrtcW)
            || self.value_or_zero(PropTag::SrcH) / 0x1_0000 != self.value_or_zero(PropTag::CrtcH)
    }
}

/// What a plane is for.
#[derive(Debug, Clone, Copy, PartialEq, Eq, Structural)]
pub enum PlaneType {
    /// Anything.
    Overlay,
    /// The CRTC's main plane.
    Primary,
    /// The cursor.
    Cursor,
}

/// What a plane can do.
#[derive(Debug, PartialEq, Eq)]
pub struct PlaneCapabilities {
    /// The plane.
    pub id: u32,
    /// One bit per CRTC index the plane can feed.
    pub possible_crtcs: u32,
    /// What the plane is for.
    pub plane_type: PlaneType,
    /// The formats it scans out.
    pub formats: Vec<u32>,
    /// The least stacking position, where stated.
    pub zpos_min: Option<u64>,
    /// The greatest stacking position, where stated.
    pub zpos_max: Option<u64>,
    /// The rotate and reflect bits it takes.
    pub rotation_bits: u64,
    /// Whether it has a rotation property.
    pub supports_rotation: bool,
    /// Whether it has a source size property.
    pub supports_scaling: bool,
    /// Whether it takes damage clips.
    pub has_fb_damage_clips: bool,
    /// Whether it has a blend mode.
    pub has_pixel_blend_mode: bool,
    /// Whether it has an alpha of its own.
    pub has_per_plane_alpha: bool,
    /// Whether it has a colour encoding.
    pub has_color_encoding: bool,
    /// Whether it has a colour range.
    pub has_color_range: bool,
    /// Whether it lists format modifiers.
    pub has_format_modifiers: bool,
}

impl Default for PlaneCapabilities {
    /// An overlay that can do nothing.
    fn default() -> (caps: Self)
        ensures
            caps.id == 0,
            caps.possible_crtcs == 0,
            caps.plane_type == PlaneType::Overlay,
            caps.formats@.len() == 0,
            caps.zpos_min is None,
            caps.zpos_max is None,
            caps.rotation_bits == 0,
            !caps.supports_rotation,
            !caps.supports_scaling,
            !caps.has_fb_damage_clips,
            !caps.has_pixel_blend_mode,
            !caps.has_per_plane_alpha,
            !caps.has_color_encoding,
            !caps.has_color_range,
            !caps.has_format_modifiers,
    {
        PlaneCapabilities {
            id: 0,
            possible_crtcs: 0,
            plane_type: PlaneType::Overlay,
            formats: Vec::new(),
            zpos_min: None,
            zpos_max: None,
            rotation_bits: 0,
            supports_rotation: false,
            supports_scaling: false,
            has_fb_damage_clips: false,
            has_pixel_blend_mode: false,
            has_per_plane_alpha: false,
            has_color_encoding: false,
            has_color_range: false,
            has_format_modifiers: false,
        }
    }
}

impl PlaneCapabilities {
    /// Whether the plane can feed the CRTC with this index.
    pub open spec fn feeds(&self, crtc_index: u32) -> bool {
        crtc_index < 32 && (self.possible_crtcs >> crtc_index) & 1u32 == 1u32
    }

    /// Whether the plane can feed the CRTC with this index.
    pub fn compatible_with_crtc(&self, crtc_index: u32) -> (compatible: bool)
        ensures
            compatible == self.feeds(crtc_index),
    {
        crtc_index < 32 && (self.possible_crtcs >> crtc_index) & 1 == 1
    }

    /// Whether the plane scans out this format.
    pub fn supports_format(&self, fourcc: u32) -> (supported: bool)
        ensures
            supported == self.formats@.contains(fourcc),
    {
        let mut i: usize = 0;
        while i < self.formats.len()
            invariant
                0 <= i <= self.formats@.len(),
                forall|j: int| 0 <= j < i ==> self.formats@[j] != fourcc,
            decreases self.formats@.len() - i,
        {
            if self.formats[i] == fourcc {
                return true;
            }
            i += 1;
        }
        false
    }
}

/// The planes of one device.
#[derive(Debug)]
pub struct PlaneRegistry {
    /// The planes, in the order the device lists them.
    pub planes: Vec<PlaneCapabilities>,
}

impl PlaneRegistry {
    /// A registry of the given planes.
    pub fn from_capabilities(planes: Vec<PlaneCapabilities>) -> (registry: Self)
        ensures
            registry.planes == planes,
    {
        PlaneRegistry { planes }
    }

    /// Every plane, in order.
    pub fn all(&self) -> (planes: &Vec<PlaneCapabilities>)
        ensures
            *planes == self.planes,
    {
        &self.planes
    }

    /// The place of the first plane with this id.
    pub open spec fn place_of(planes: Seq<PlaneCapabilities>, id: u32) -> Option<int>
        decreases planes.len(),
    {
        if planes.len() == 0 {
            None
        } else {
            match PlaneRegistry::place_of(planes.drop_last(), id) {
                Some(place) => Some(place),
                None => if planes.last().id == id {
                    Some(planes.len() - 1)
                } else {
                    None
                },
            }
        }
    }

    /// The rotate and reflect bits of the first plane with this id, or zero.
    pub open spec fn rotation_bits_of(&self, id: u32) -> u64 {
        match PlaneRegistry::place_of(self.planes@, id) {
            Some(place) => self.planes@[place].rotation_bits,
            None => 0,
        }
    }

    /// The first plane with this id.
    pub fn by_id(&self, id: u32) -> (plane: Option<&PlaneCapabilities>)
        ensures
            match (plane, PlaneRegistry::place_of(self.planes@, id)) {
                (Some(plane), Some(place)) => 0 <= place < self.planes@.len() && *plane
                    == self.planes@[place],
                (None, None) => true,
                _ => false,
            },
    {
        let mut i: usize = 0;
        while i < self.planes.len()
            invariant
                0 <= i <= self.planes@.len(),
                PlaneRegistry::place_of(self.planes@.take(i as int), id) is None,
            decreases self.planes@.len() - i,
        {
            let ghost next = self.planes@.take(i + 1);
            assert(next.drop_last() =~= self.planes@.take(i as int));
            if self.planes[i].id == id {
                proof {
                    lemma_place_is_stable(self.planes@, id, i + 1);
                }
                return Some(&self.planes[i]);
            }
            i += 1;
        }
        assert(self.planes@.take(self.planes@.len() as int) =~= self.planes@);
        None
    }
}

proof fn lemma_place_is_stable(planes: Seq<PlaneCapabilities>, id: u32, upto: int)
    requires
        0 <= upto <= planes.len(),
        PlaneRegistry::place_of(planes.take(upto), id) is Some,
    ensures
        PlaneRegistry::place_of(planes, id) == PlaneRegistry::place_of(planes.take(upto), id),
    decreases planes.len(),
{
    if upto == planes.len() {
        assert(planes.take(upto) =~= planes);
    } else {
        assert(planes.drop_last().take(upto) =~= planes.take(upto));
        lemma_place_is_stable(planes.drop_last(), id, upto);
    }
}

/// Which layer goes on which plane.
#[derive(Debug)]
pub struct Assignment {
    /// Plane and layer, one pair per placed layer.
    pub entries: Vec<(u32, LayerId)>,
}

impl Assignment {
    /// The plane the first entry for a layer names.
    pub open spec fn plane_of(entries: Seq<(u32, LayerId)>, layer: LayerId) -> Option<u32>
        decreases entries.len(),
    {
        if entries.len() == 0 {
            None
        } else {
            match Assignment::plane_of(entries.drop_last(), layer) {
                Some(plane) => Some(plane),
                None => if entries.last().1 == layer {
                    Some(entries.last().0)
                } else {
                    None
                },
            }
        }
    }

    /// How many layers are placed.
    pub fn len(&self) -> (len: usize)
        ensures
            len == self.entries@.len(),
    {
        self.entries.len()
    }

    /// The plane a layer is placed on.
    pub fn get_plane_of(&self, layer: LayerId) -> (plane: Option<u32>)
        ensures
            plane == Assignment::plane_of(self.entries@, layer),
    {
        let mut i: usize = 0;
        while i < self.entries.len()
            invariant
                0 <= i <= self.entries@.len(),
                Assignment::plane_of(self.entries@.take(i as int), layer) is None,
            decreases self.entries@.len() - i,
        {
            let ghost next = self.entries@.take(i + 1);
            assert(next.drop_last() =~= self.entries@.take(i as int));
            if self.entries[i].1 == layer {
                proof {
                    lemma_plane_of_is_stable(self.entries@, layer, i + 1);
                }
                return Some(self.entries[i].0);
            }
            i += 1;
        }
        assert(self.entries@.take(self.entries@.len() as int) =~= self.entries@);
        None
    }
}

proof fn lemma_plane_of_is_stable(entries: Seq<(u32, LayerId)>, layer: LayerId, upto: int)
    requires
        0 <= upto <= entries.len(),
        Assignment::plane_of(entries.take(upto), layer) is Some,
    ensures
        Assignment::plane_of(entries, layer) == Assignment::plane_of(entries.take(upto), layer),
    decreases entries.len(),
{
    if upto == entries.len() {
        assert(entries.take(upto) =~= entries);
    } else {
        assert(entries.drop_last().take(upto) =~= entries.take(upto));
        lemma_plane_of_is_stable(entries.drop_last(), layer, upto);
    }
}

/// What a search for plane assignments came to.
#[derive(Debug)]
pub struct Allocation {
    /// Which layer goes on which plane.
    pub assignment: Assignment,
    /// The layers no plane was found for.
    pub composited: Vec<LayerId>,
    /// How many test commits the search issued.
    pub test_commits_issued: usize,
    /// Whether the last assignment was reused without a test commit.
    pub fb_delta_fast_path: bool,
    /// Whether the search stopped for want of permitted test commits.
    pub budget_exhausted: bool,
}

impl Allocation {
    /// An allocation that placed nothing.
    pub fn nothing() -> (allocation: Self)
        ensures
            allocation.assignment.entries@.len() == 0,
            allocation.composited@.len() == 0,
            allocation.test_commits_issued == 0,
            !allocation.fb_delta_fast_path,
            !allocation.budget_exhausted,
    {
        Allocation {
            assignment: Assignment { entries: Vec::new() },
            composited: Vec::new(),
            test_commits_issued: 0,
            fb_delta_fast_path: false,
            budget_exhausted: false,
        }
    }
}

/// Why a test commit, or a search made of them, failed.
#[derive(Debug, Clone, Copy, PartialEq, Eq, Structural)]
pub enum TestFailure {
    /// The caller is not DRM master.
    NotMaster,
    /// The kernel refused the configuration.
    Rejected,
}

// --- laws --------------------------------------------------------------------

/// Whether an entry is the first that names a layer.
pub open spec fn names_first(entries: Seq<(u32, LayerId)>, layer: LayerId, e: int) -> bool {
    0 <= e < entries.len() && entries[e].1 == layer && forall|j: int|
        0 <= j < e ==> (#[trigger] entries[j]).1 != layer
}

/// Whether capabilities are the first with an id.
pub open spec fn describes_first(planes: Seq<PlaneCapabilities>, id: u32, at: int) -> bool {
    0 <= at < planes.len() && planes[at].id == id && forall|j: int|
        0 <= j < at ==> (#[trigger] planes[j]).id != id
}

/// A layer is on the plane of the first entry that names it, and on none where
/// no entry does.
pub proof fn law_the_first_entry_places_a_layer(
    entries: Seq<(u32, LayerId)>,
    layer: LayerId,
    e: int,
)
    ensures
        names_first(entries, layer, e) ==> Assignment::plane_of(entries, layer) == Some(
            entries[e].0,
        ),
        (forall|j: int| 0 <= j < entries.len() ==> (#[trigger] entries[j]).1 != layer)
            <==> Assignment::plane_of(entries, layer) is None,
        Assignment::plane_of(entries, layer) matches Some(plane_id) ==> exists|k: int| #[trigger]
            names_first(entries, layer, k) && entries[k].0 == plane_id,
    decreases entries.len(),
{
    if entries.len() > 0 {
        let rest = entries.drop_last();
        law_the_first_entry_places_a_layer(rest, layer, e);
        assert forall|j: int| 0 <= j < rest.len() implies #[trigger] rest[j] == entries[j] by {}
        assert(entries[entries.len() - 1] == entries.last());
        match Assignment::plane_of(rest, layer) {
            Some(plane_id) => {
                let k = choose|k: int| #[trigger]
                    names_first(rest, layer, k) && rest[k].0 == plane_id;
                assert(names_first(entries, layer, k)) by {
                    assert forall|j: int| 0 <= j < k implies (#[trigger] entries[j]).1 != layer by {
                        assert(rest[j].1 != layer);
                    }
                }
                if names_first(entries, layer, e) {
                    assert(entries[k].1 == layer);
                    if e < k {
                        assert(entries[e].1 != layer);
                    }
                }
            },
            None => {
                assert forall|j: int| 0 <= j < rest.len() implies (#[trigger] entries[j]).1
                    != layer by {
                    assert(rest[j].1 != layer);
                }
                if entries.last().1 == layer {
                    let k = entries.len() - 1;
                    assert(names_first(entries, layer, k));
                }
            },
        }
    }
}

/// A plane is looked up by the first capabilities with its id.
pub proof fn law_the_first_plane_of_an_id_answers(
    planes: Seq<PlaneCapabilities>,
    id: u32,
    at: int,
)
    ensures
        describes_first(planes, id, at) ==> PlaneRegistry::place_of(planes, id) == Some(at),
        (forall|j: int| 0 <= j < planes.len() ==> (#[trigger] planes[j]).id != id)
            <==> PlaneRegistry::place_of(planes, id) is None,
        PlaneRegistry::place_of(planes, id) matches Some(place) ==> 0 <= place < planes.len()
            && planes[place].id == id,
    decreases planes.len(),
{
    if planes.len() > 0 {
        let rest = planes.drop_last();
        law_the_first_plane_of_an_id_answers(rest, id, at);
        assert forall|j: int| 0 <= j < rest.len() implies #[trigger] rest[j] == planes[j] by {}
        assert(planes[planes.len() - 1] == planes.last());
        if PlaneRegistry::place_of(rest, id) is Some {
            let place = PlaneRegistry::place_of(rest, id)->0;
            assert(planes[place].id == id);
            if describes_first(planes, id, at) {
                assert(at <= place);
                assert(describes_first(rest, id, at)) by {
                    assert forall|j: int| 0 <= j < at implies (#[trigger] rest[j]).id != id by {
                        assert(planes[j].id != id);
                    }
                }
            }
        } else {
            assert forall|j: int| 0 <= j < rest.len() implies (#[trigger] planes[j]).id != id by {
                assert(rest[j].id != id);
            }
        }
    }
}

/// The rotate and reflect bits reported of a plane are those of the first
/// capabilities with its id, and zero for a plane nobody described.
pub proof fn law_rotation_bits_are_the_planes_own(registry: PlaneRegistry, id: u32, at: int)
    requires
        describes_first(registry.planes@, id, at),
    ensures
        registry.rotation_bits_of(id) == registry.planes@[at].rotation_bits,
{
    law_the_first_plane_of_an_id_answers(registry.planes@, id, at);
}

/// Each tag has a place of its own in the fixed order, and every place a tag.
pub proof fn law_tags_are_numbered(tag: PropTag, place: int)
    ensures
        0 <= tag.index() < TAG_COUNT,
        PropTag::nth(tag.index()) == tag,
        0 <= place < TAG_COUNT ==> PropTag::nth(place).index() == place,
{
}

/// What is set for a tag is read back for it, and nothing else changes; a table
/// is what it holds for each tag.
pub proof fn law_a_table_reads_back_what_was_set<T>(
    table: TagTable<T>,
    other: TagTable<T>,
    tag: PropTag,
    value: T,
)
    ensures
        table.with(tag, value).value(tag) == Some(value),
        forall|t: PropTag| t != tag ==> (#[trigger] table.with(tag, value).value(t))
            == table.value(t),
        forall|t: PropTag| (#[trigger] TagTable::<T>::empty_spec().value(t)) is None,
        (forall|t: PropTag| (#[trigger] table.value(t)) == other.value(t)) ==> table == other,
        table.value(PropTag::FbId) == table.fb_id,
        table.value(PropTag::CrtcId) == table.crtc_id,
        table.value(PropTag::CrtcX) == table.crtc_x,
        table.value(PropTag::CrtcY) == table.crtc_y,
        table.value(PropTag::CrtcW) == table.crtc_w,
        table.value(PropTag::CrtcH) == table.crtc_h,
        table.value(PropTag::SrcX) == table.src_x,
        table.value(PropTag::SrcY) == table.src_y,
        table.value(PropTag::SrcW) == table.src_w,
        table.value(PropTag::SrcH) == table.src_h,
        table.value(PropTag::PixelFormat) == table.pixel_format,
        table.value(PropTag::FbModifier) == table.fb_modifier,
        table.value(PropTag::Rotation) == table.rotation,
        table.value(PropTag::Zpos) == table.zpos,
        table.value(PropTag::Alpha) == table.alpha,
        table.value(PropTag::InFenceFd) == table.in_fence_fd,
{
    if forall|t: PropTag| (#[trigger] table.value(t)) == other.value(t) {
        assert(table.value(PropTag::FbId) == other.value(PropTag::FbId));
        assert(table.value(PropTag::CrtcId) == other.value(PropTag::CrtcId));
        assert(table.value(PropTag::CrtcX) == other.value(PropTag::CrtcX));
        assert(table.value(PropTag::CrtcY) == other.value(PropTag::CrtcY));
        assert(table.value(PropTag::CrtcW) == other.value(PropTag::CrtcW));
        assert(table.value(PropTag::CrtcH) == other.value(PropTag::CrtcH));
        assert(table.value(PropTag::SrcX) == other.value(PropTag::SrcX));
        assert(table.value(PropTag::SrcY) == other.value(PropTag::SrcY));
        assert(table.value(PropTag::SrcW) == other.value(PropTag::SrcW));
        assert(table.value(PropTag::SrcH) == other.value(PropTag::SrcH));
        assert(table.value(PropTag::PixelFormat) == other.value(PropTag::PixelFormat));
        assert(table.value(PropTag::FbModifier) == other.value(PropTag::FbModifier));
        assert(table.value(PropTag::Rotation) == other.value(PropTag::Rotation));
        assert(table.value(PropTag::Zpos) == other.value(PropTag::Zpos));
        assert(table.value(PropTag::Alpha) == other.value(PropTag::Alpha));
        assert(table.value(PropTag::InFenceFd) == other.value(PropTag::InFenceFd));
    }
}

/// Every tag goes by the name the kernel gives its property; the format and the
/// modifier, and only they, are no property of a plane.
pub proof fn law_tags_bear_the_kernels_names(tag: PropTag)
    ensures
        PropTag::FbId.name_spec() == "FB_ID"@,
        PropTag::CrtcId.name_spec() == "CRTC_ID"@,
        PropTag::CrtcX.name_spec() == "CRTC_X"@,
        PropTag::CrtcY.name_spec() == "CRTC_Y"@,
        PropTag::CrtcW.name_spec() == "CRTC_W"@,
        PropTag::CrtcH.name_spec() == "CRTC_H"@,
        PropTag::SrcX.name_spec() == "SRC_X"@,
        PropTag::SrcY.name_spec() == "SRC_Y"@,
        PropTag::SrcW.name_spec() == "SRC_W"@,
        PropTag::SrcH.name_spec() == "SRC_H"@,
        PropTag::Rotation.name_spec() == "rotation"@,
        PropTag::Zpos.name_spec() == "zpos"@,
        PropTag::Alpha.name_spec() == "alpha"@,
        PropTag::InFenceFd.name_spec() == "IN_FENCE_FD"@,
        tag.is_hint_spec() <==> tag == PropTag::PixelFormat || tag == PropTag::FbModifier,
{
}

/// A plane feeds the CRTCs whose bits its mask has, and no others.
pub proof fn law_a_plane_feeds_the_crtcs_of_its_mask(
    plane: PlaneCapabilities,
    crtc_index: u32,
)
    ensures
        crtc_index < 32 ==> (plane.feeds(crtc_index) <==> (plane.possible_crtcs >> crtc_index) & 1u32
            == 1u32),
        crtc_index >= 32 ==> !plane.feeds(crtc_index),
{
}

/// A position between the two ends of an `i32` is the low half of its slot, and
/// every other slot with that half stands for the same position.
pub proof fn law_slots_are_read_by_their_low_half(position: i32, high: u32)
    ensures
        signed_position((high * 0x1_0000_0000 + unsigned_slot(position)) as u64) == position,
        0 <= position ==> unsigned_slot(position) == position,
        position < 0 ==> unsigned_slot(position) == 0x1_0000_0000 + position,
{
    let slot = high * 0x1_0000_0000 + unsigned_slot(position);
    assert(slot <= u64::MAX);
    assert(slot % 0x1_0000_0000 == unsigned_slot(position) as int) by (nonlinear_arith)
        requires
            slot == high * 0x1_0000_0000 + unsigned_slot(position),
            0 <= unsigned_slot(position) < 0x1_0000_0000,
            0 <= high,
    ;
}

} // verus!
