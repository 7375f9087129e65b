//! The canvas: what becomes of layers no plane was found for.
//!
//! When a scene has more layers than the CRTC has usable planes, those left
//! over are blended into one full-screen surface, and that surface goes on a
//! plane of its own.

use vstd::prelude::*;
use crate::canvas::{
    blended, fits, format_supported, rows_copied, CompositeCanvas, CompositeRect, CompositeSrc,
    ScanoutBuffer, Surface,
};
use crate::commit::{fence_of, find_fence, PlanePropertyMap};
use crate::display::{unset_display, DisplayParams, Rect};
use crate::draft::{lemma_same_layers_reflexive, lemma_same_layers_transitive, LoweredLayer};
use crate::fourcc;
use crate::lower::{
    law_lowering_shows_the_layer_as_asked, lower_layer, lowered, LoweringInput,
};
use crate::order::{law_sorting_sorts, ordered, sort, views, Ranked};
use crate::planes::{
    describes_first, from_unsigned_slot, law_the_first_entry_places_a_layer,
    law_the_first_plane_of_an_id_answers, signed_position, Allocation, Assignment, Layer, LayerId, PlaneRegistry,
    PlaneType, PropTag, TestFailure,
};
use crate::plan::overflows;
use crate::release::Acquisition;
use crate::scene::{
    homes_of, lives_in, only_slot, same_layer, same_layers, Homes, LayerScene, SceneLayer,
};
use crate::source::{
    BindingModel, LayerBufferSource, MapAccess, Mapping, SourceError, SourceFormat,
};

verus! {

/// Where a frame's canvas goes.
#[derive(Debug, Clone, Copy, PartialEq, Eq, Structural)]
pub struct CanvasTarget {
    /// The plane kept for it.
    pub plane_id: u32,
    /// The framebuffer that was painted.
    pub fb_id: u32,
    /// Canvas width in pixels.
    pub width: u32,
    /// Canvas height in pixels.
    pub height: u32,
    /// Its stacking position.
    pub zpos: u64,
}

/// What a frame can fall back on for layers without a plane.
#[derive(Debug)]
pub struct Composition {
    /// Where the canvas goes.
    pub target: CanvasTarget,
    /// The layers whose pixels are in it.
    pub mapped: Vec<LayerId>,
    /// How many of them had a fence that was waited for before reading.
    pub waits: usize,
}

/// The identity the canvas has in a plan. No layer has it: their handles count
/// from one.
pub open spec fn canvas_id() -> LayerId {
    LayerId(0)
}

/// What the canvas is lowered from: the whole surface, at the origin of the
/// CRTC, at its own size.
pub open spec fn canvas_input(target: CanvasTarget, crtc_id: u32) -> LoweringInput {
    LoweringInput {
        display: DisplayParams {
            dst_rect: Rect { x: 0, y: 0, w: target.width, h: target.height },
            zpos: Some(target.zpos),
            ..unset_display()
        },
        format: SourceFormat {
            fourcc: fourcc::ARGB8888,
            modifier: 0,
            width: target.width,
            height: target.height,
        },
        binding: BindingModel::SceneSubmitsFbId,
        fb_id: target.fb_id,
        crtc_id,
        default_zpos: None,
    }
}

/// The property bag of the canvas plane.
pub open spec fn canvas_layer(target: CanvasTarget, crtc_id: u32) -> Layer {
    lowered(canvas_input(target, crtc_id), Layer::empty())
}

/// Lower the canvas.
pub fn lower_canvas(target: &CanvasTarget, crtc_id: u32) -> (layer: Layer)
    ensures
        layer == canvas_layer(*target, crtc_id),
{
    let mut display = DisplayParams::default();
    display.dst_rect = Rect { x: 0, y: 0, w: target.width, h: target.height };
    display.zpos = Some(target.zpos);
    let input = LoweringInput {
        display,
        format: SourceFormat {
            fourcc: fourcc::ARGB8888,
            modifier: 0,
            width: target.width,
            height: target.height,
        },
        binding: BindingModel::SceneSubmitsFbId,
        fb_id: target.fb_id,
        crtc_id,
        default_zpos: None,
    };
    let mut layer = Layer::new();
    lower_layer(&input, &mut layer);
    layer
}

// --- where the canvas goes ---------------------------------------------------

/// Whether the search put a layer on this plane.
pub open spec fn is_taken(entries: Seq<(u32, LayerId)>, plane_id: u32) -> bool {
    exists|i: int| 0 <= i < entries.len() && (#[trigger] entries[i]).0 == plane_id
}

/// Whether a plane can show the canvas: it takes its format and is no cursor.
pub open spec fn can_show(registry: PlaneRegistry, plane_id: u32) -> bool {
    match PlaneRegistry::place_of(registry.planes@, plane_id) {
        Some(place) => registry.planes@[place].plane_type != PlaneType::Cursor
            && registry.planes@[place].formats@.contains(fourcc::ARGB8888),
        None => false,
    }
}

/// The last candidate that can show the canvas and is not taken.
pub open spec fn last_free(
    candidates: Seq<u32>,
    registry: PlaneRegistry,
    entries: Seq<(u32, LayerId)>,
) -> Option<u32>
    decreases candidates.len(),
{
    if candidates.len() == 0 {
        None
    } else if can_show(registry, candidates.last()) && !is_taken(entries, candidates.last()) {
        Some(candidates.last())
    } else {
        last_free(candidates.drop_last(), registry, entries)
    }
}

fn takes(assignment: &Assignment, plane_id: u32) -> (taken: bool)
    ensures
        taken == is_taken(assignment.entries@, plane_id),
{
    let mut i: usize = 0;
    while i < assignment.entries.len()
        invariant
            0 <= i <= assignment.entries@.len(),
            forall|j: int| 0 <= j < i ==> (#[trigger] assignment.entries@[j]).0 != plane_id,
        decreases assignment.entries@.len() - i,
    {
        if assignment.entries[i].0 == plane_id {
            return true;
        }
        i += 1;
    }
    false
}

fn find_free(
    candidates: &[u32],
    registry: &PlaneRegistry,
    assignment: &Assignment,
) -> (found: Option<
    u32,
>)
    ensures
        found == last_free(candidates@, *registry, assignment.entries@),
{
    let mut left: usize = candidates.len();
    assert(candidates@.take(left as int) =~= candidates@);
    while left > 0
        invariant
            0 <= left <= candidates@.len(),
            last_free(candidates@, *registry, assignment.entries@) == last_free(
                candidates@.take(left as int),
                *registry,
                assignment.entries@,
            ),
        decreases left,
    {
        assert(candidates@.take(left as int).drop_last() =~= candidates@.take(left - 1));
        left -= 1;
        let plane_id: u32 = candidates[left];
        let shows: bool = match registry.by_id(plane_id) {
            Some(plane) => plane.plane_type != PlaneType::Cursor && plane.supports_format(
                fourcc::ARGB8888,
            ),
            None => false,
        };
        if shows && !takes(assignment, plane_id) {
            return Some(plane_id);
        }
    }
    None
}

/// The plane to keep for the canvas: one the search left free, or else one for
/// the search to do without. The last candidate is preferred, so a steady scene
/// keeps its canvas where it is.
pub fn pick_canvas_plane(
    candidates: &[u32],
    registry: &PlaneRegistry,
    assignment: &Assignment,
) -> (picked: Option<u32>)
    ensures
        picked == match last_free(candidates@, *registry, assignment.entries@) {
            Some(plane_id) => Some(plane_id),
            None => last_free(candidates@, *registry, Seq::empty()),
        },
{
    match find_free(candidates, registry, assignment) {
        Some(plane_id) => Some(plane_id),
        None => find_free(candidates, registry, &Assignment { entries: Vec::new() }),
    }
}

/// Whether some layer overflows.
pub open spec fn some_overflows(layers: Seq<LoweredLayer>, entries: Seq<(u32, LayerId)>) -> bool {
    exists|i: int| 0 <= i < layers.len() && overflows(#[trigger] layers[i], entries)
}

/// Whether some layer has a buffer of this frame and no plane.
pub fn any_overflows(layers: &Vec<LoweredLayer>, assignment: &Assignment) -> (any: bool)
    ensures
        any == some_overflows(layers@, assignment.entries@),
{
    let mut i: usize = 0;
    while i < layers.len()
        invariant
            0 <= i <= layers@.len(),
            forall|j: int|
                0 <= j < i ==> !overflows(#[trigger] layers@[j], assignment.entries@),
        decreases layers@.len() - i,
    {
        if !layers[i].held && assignment.get_plane_of(layers[i].id).is_none() {
            assert(overflows(layers@[i as int], assignment.entries@));
            return true;
        }
        i += 1;
    }
    false
}

/// Where a search put layers: nowhere, if the kernel refused it outright.
pub open spec fn entries_of(placed: Result<Allocation, TestFailure>) -> Seq<(u32, LayerId)> {
    match placed {
        Ok(allocation) => allocation.assignment.entries@,
        Err(_) => Seq::empty(),
    }
}

/// The plane a second search has to do without, so that the canvas can have it.
///
/// There is none to hold back while every layer has a plane, where no plane can
/// show the canvas, or once DRM master is lost.
pub fn plane_to_hold_back(
    layers: &Vec<LoweredLayer>,
    placed: &Result<Allocation, TestFailure>,
    candidates: &[u32],
    registry: &PlaneRegistry,
) -> (held_back: Option<u32>)
    ensures
        held_back == if *placed == Err::<Allocation, TestFailure>(TestFailure::NotMaster)
            || !some_overflows(layers@, entries_of(*placed)) {
            None
        } else {
            match last_free(candidates@, *registry, entries_of(*placed)) {
                Some(plane_id) => Some(plane_id),
                None => last_free(candidates@, *registry, Seq::empty()),
            }
        },
{
    let nothing = Assignment { entries: Vec::new() };
    assert(nothing.entries@ =~= Seq::empty());
    let assignment: &Assignment = match placed {
        Ok(allocation) => &allocation.assignment,
        Err(TestFailure::NotMaster) => {
            return None;
        },
        Err(TestFailure::Rejected) => &nothing,
    };
    if any_overflows(layers, assignment) {
        pick_canvas_plane(candidates, registry, assignment)
    } else {
        None
    }
}

/// The highest stacking position a list of layers asks for, or their number
/// where that is higher.
pub open spec fn top_of(layers: Seq<LoweredLayer>) -> int
    decreases layers.len(),
{
    if layers.len() == 0 {
        0
    } else {
        let below = top_of(layers.drop_last());
        let asked = layers.last().layer.or_zero(PropTag::Zpos) as int;
        let least = layers.len() as int;
        if below >= asked && below >= least {
            below
        } else if asked >= least {
            asked
        } else {
            least
        }
    }
}

/// One above the layers, as far as a `u64` goes.
pub open spec fn above(layers: Seq<LoweredLayer>) -> u64 {
    if top_of(layers) < u64::MAX {
        (top_of(layers) + 1) as u64
    } else {
        u64::MAX
    }
}

fn stack_above(layers: &Vec<LoweredLayer>) -> (zpos: u64)
    ensures
        zpos == above(layers@),
{
    let mut top: u64 = 0;
    let mut i: usize = 0;
    while i < layers.len()
        invariant
            0 <= i <= layers@.len(),
            top == top_of(layers@.take(i as int)),
        decreases layers@.len() - i,
    {
        assert(layers@.take(i + 1).drop_last() =~= layers@.take(i as int));
        i += 1;
        let asked: u64 = match layers[i - 1].layer.property(PropTag::Zpos) {
            Some(zpos) => zpos,
            None => 0,
        };
        if asked > top {
            top = asked;
        }
        if i as u64 > top {
            top = i as u64;
        }
    }
    assert(layers@.take(layers@.len() as int) =~= layers@);
    if top < u64::MAX {
        top + 1
    } else {
        u64::MAX
    }
}

impl CanvasTarget {
    /// Aim a painted canvas at a plane, above every layer as far as the plane
    /// stacks. `None` for a canvas that cannot be armed.
    pub fn aim(
        canvas: &CompositeCanvas,
        plane_id: u32,
        layers: &Vec<LoweredLayer>,
        map: &PlanePropertyMap,
    ) -> (target: Option<CanvasTarget>)
        ensures
            target == match canvas.back.fb_id {
                Some(fb_id) => if canvas.back.data@.len() > 0 && canvas.front.data@.len() > 0 {
                    Some(
                        CanvasTarget {
                            plane_id,
                            fb_id,
                            width: canvas.width,
                            height: canvas.height,
                            zpos: map.clamped(plane_id, above(layers@)),
                        },
                    )
                } else {
                    None
                },
                None => None,
            },
    {
        if !canvas.armable() {
            return None;
        }
        match canvas.fb_id() {
            Some(fb_id) => Some(
                CanvasTarget {
                    plane_id,
                    fb_id,
                    width: canvas.width,
                    height: canvas.height,
                    zpos: map.clamp_zpos(plane_id, stack_above(layers)),
                },
            ),
            None => None,
        }
    }
}

// --- painting ----------------------------------------------------------------

/// A layer whose pixels can be read.
#[derive(Debug)]
pub struct MappedLayer {
    /// Which layer.
    pub id: LayerId,
    /// How it is to be shown.
    pub layer: Layer,
    /// Its pixels.
    pub mapping: Mapping,
}

/// The format a property bag names, or zero.
pub open spec fn format_of(layer: Layer) -> u32 {
    match layer.properties.pixel_format {
        Some(fourcc) => (fourcc % 0x1_0000_0000) as u32,
        None => 0,
    }
}

/// The alpha a property bag asks for: opaque where it asks for none.
pub open spec fn alpha_of(layer: Layer) -> u16 {
    match layer.properties.alpha {
        Some(alpha) => (alpha % 0x1_0000) as u16,
        None => 0xFFFF,
    }
}

/// Whether a layer's pixels can be blended: their format is one that blends, and
/// the mapping holds every row it states.
pub open spec fn readable(layer: Layer, mapping: Mapping) -> bool {
    &&& format_of(layer) == fourcc::ARGB8888 || format_of(layer) == fourcc::XRGB8888
    &&& mapping.stride >= mapping.width * 4
    &&& mapping.height * mapping.stride <= mapping.pixels@.len()
}

impl View for MappedLayer {
    type V = MappedLayer;

    open spec fn view(&self) -> MappedLayer {
        *self
    }
}

impl Ranked for MappedLayer {
    /// A layer is painted before those stacked above it.
    open spec fn precedes(a: MappedLayer, b: MappedLayer) -> bool {
        a.layer.or_zero(PropTag::Zpos) < b.layer.or_zero(PropTag::Zpos)
    }

    proof fn order_is_strict(a: MappedLayer, b: MappedLayer, c: MappedLayer) {
    }

    fn is_before(&self, other: &Self) -> (before: bool) {
        let own: u64 = match self.layer.property(PropTag::Zpos) {
            Some(zpos) => zpos,
            None => 0,
        };
        let others: u64 = match other.layer.property(PropTag::Zpos) {
            Some(zpos) => zpos,
            None => 0,
        };
        own < others
    }
}

/// What a mapped layer blends from.
pub open spec fn surface_of(mapped: MappedLayer) -> Surface {
    Surface {
        pixels: mapped.mapping.pixels@,
        src_stride_bytes: mapped.mapping.stride,
        src_width: mapped.mapping.width,
        src_height: mapped.mapping.height,
        drm_fourcc: format_of(mapped.layer),
        plane_alpha: alpha_of(mapped.layer),
    }
}

/// The part of its buffer a layer shows, in whole pixels.
pub open spec fn shown_rect(layer: Layer) -> CompositeRect {
    CompositeRect {
        x: signed_position((layer.or_zero(PropTag::SrcX) / 0x1_0000) as u64) as i32,
        y: signed_position((layer.or_zero(PropTag::SrcY) / 0x1_0000) as u64) as i32,
        w: (layer.or_zero(PropTag::SrcW) / 0x1_0000 % 0x1_0000_0000) as u32,
        h: (layer.or_zero(PropTag::SrcH) / 0x1_0000 % 0x1_0000_0000) as u32,
    }
}

/// Where on the CRTC a layer is shown.
pub open spec fn target_rect(layer: Layer) -> CompositeRect {
    CompositeRect {
        x: signed_position(layer.or_zero(PropTag::CrtcX)) as i32,
        y: signed_position(layer.or_zero(PropTag::CrtcY)) as i32,
        w: (layer.or_zero(PropTag::CrtcW) % 0x1_0000_0000) as u32,
        h: (layer.or_zero(PropTag::CrtcH) % 0x1_0000_0000) as u32,
    }
}

/// A shadow with layers blended over it, the first of them undermost.
pub open spec fn painted(
    shadow: Seq<u8>,
    width: u32,
    height: u32,
    layers: Seq<MappedLayer>,
) -> Seq<u8>
    decreases layers.len(),
{
    if layers.len() == 0 {
        shadow
    } else {
        let top = layers.last();
        blended(
            painted(shadow, width, height, layers.drop_last()),
            width * 4,
            width as int,
            height as int,
            surface_of(top),
            shown_rect(top.layer),
            target_rect(top.layer),
        )
    }
}

/// The layers of a list, by identity.
pub open spec fn ids_of(layers: Seq<MappedLayer>) -> Seq<LayerId> {
    layers.map_values(|mapped: MappedLayer| mapped.id)
}

fn show_rect(layer: &Layer) -> (rect: CompositeRect)
    ensures
        rect == shown_rect(*layer),
{
    CompositeRect {
        x: from_unsigned_slot(layer.value_or_zero(PropTag::SrcX) / 0x1_0000),
        y: from_unsigned_slot(layer.value_or_zero(PropTag::SrcY) / 0x1_0000),
        w: (layer.value_or_zero(PropTag::SrcW) / 0x1_0000 % 0x1_0000_0000) as u32,
        h: (layer.value_or_zero(PropTag::SrcH) / 0x1_0000 % 0x1_0000_0000) as u32,
    }
}

fn blend_one(canvas: &mut CompositeCanvas, mapped: &MappedLayer)
    requires
        old(canvas).well_formed(),
    ensures
        final(canvas).well_formed(),
        final(canvas).shadow@ == blended(
            old(canvas).shadow@,
            old(canvas).width * 4,
            old(canvas).width as int,
            old(canvas).height as int,
            surface_of(*mapped),
            shown_rect(mapped.layer),
            target_rect(mapped.layer),
        ),
        *final(canvas) == (CompositeCanvas { shadow: final(canvas).shadow, ..*old(canvas) }),
{
    let target: Rect = mapped.layer.crtc_rect();
    let src = CompositeSrc {
        pixels: mapped.mapping.pixels.as_slice(),
        src_stride_bytes: mapped.mapping.stride,
        src_width: mapped.mapping.width,
        src_height: mapped.mapping.height,
        drm_fourcc: stated_format(&mapped.layer),
        plane_alpha: match mapped.layer.property(PropTag::Alpha) {
            Some(alpha) => (alpha % 0x1_0000) as u16,
            None => 0xFFFF,
        },
    };
    assert(src@ == surface_of(*mapped));
    canvas.blend(
        &src,
        show_rect(&mapped.layer),
        CompositeRect { x: target.x, y: target.y, w: target.w, h: target.h },
    );
}

fn stated_format(layer: &Layer) -> (fourcc: u32)
    ensures
        fourcc == format_of(*layer),
{
    match layer.property(PropTag::PixelFormat) {
        Some(fourcc) => (fourcc % 0x1_0000_0000) as u32,
        None => 0,
    }
}

/// The fences to wait for before reading the layers that overflow, in order.
pub open spec fn overflow_fences(
    layers: Seq<LoweredLayer>,
    entries: Seq<(u32, LayerId)>,
    acquisitions: Seq<Acquisition>,
) -> Seq<i32>
    decreases layers.len(),
{
    if layers.len() == 0 {
        Seq::empty()
    } else {
        let before = overflow_fences(layers.drop_last(), entries, acquisitions);
        match fence_of(acquisitions, layers.last().id) {
            Some(fd) => if overflows(layers.last(), entries) {
                before.push(fd)
            } else {
                before
            },
            None => before,
        }
    }
}

/// List the fences to wait for before reading the layers that overflow: their
/// pixels are valid only once these signal.
pub fn list_overflow_fences(
    layers: &Vec<LoweredLayer>,
    assignment: &Assignment,
    acquisitions: &Vec<Acquisition>,
) -> (fences: Vec<i32>)
    ensures
        fences@ == overflow_fences(layers@, assignment.entries@, acquisitions@),
{
    let mut fences: Vec<i32> = Vec::new();
    let mut i: usize = 0;
    while i < layers.len()
        invariant
            0 <= i <= layers@.len(),
            fences@ == overflow_fences(
                layers@.take(i as int),
                assignment.entries@,
                acquisitions@,
            ),
        decreases layers@.len() - i,
    {
        assert(layers@.take(i + 1).drop_last() =~= layers@.take(i as int));
        let entry: LoweredLayer = layers[i];
        if !entry.held && assignment.get_plane_of(entry.id).is_none() {
            if let Some(fd) = find_fence(acquisitions, entry.id) {
                fences.push(fd);
            }
        }
        i += 1;
    }
    assert(layers@.take(layers@.len() as int) =~= layers@);
    fences
}

/// The layers that overflow and can be blended, in order, given what each
/// answered when it was asked for its pixels.
pub open spec fn gathered(
    layers: Seq<LoweredLayer>,
    entries: Seq<(u32, LayerId)>,
    answers: Seq<Option<Result<Mapping, SourceError>>>,
) -> Seq<MappedLayer>
    decreases layers.len(),
{
    if layers.len() == 0 {
        Seq::empty()
    } else {
        let before = gathered(layers.drop_last(), entries, answers);
        let entry = layers.last();
        match answers[layers.len() - 1] {
            Some(Ok(mapping)) => if overflows(entry, entries) && readable(entry.layer, mapping) {
                before.push(MappedLayer { id: entry.id, layer: entry.layer, mapping })
            } else {
                before
            },
            _ => before,
        }
    }
}

/// Whether a layer was left alone: it does not overflow, or is not in the scene.
pub open spec fn unasked<S>(
    homes: Homes<S>,
    generations: Seq<u32>,
    layer: LoweredLayer,
    entries: Seq<(u32, LayerId)>,
    answer: Option<Result<Mapping, SourceError>>,
) -> bool {
    &&& answer is None
    &&& overflows(layer, entries) ==> not_in_scene(homes, generations, layer.id)
}

/// Whether no slot holds a layer.
pub open spec fn not_in_scene<S>(homes: Homes<S>, generations: Seq<u32>, layer: LayerId) -> bool {
    forall|i: int| !lives_in(homes.slots, generations, layer, i)
}

/// Whether `route` leads from the sources a round of asking found to those it
/// left, one step and one answer for each layer.
pub open spec fn asked_round<S>(
    first: Homes<S>,
    route: Seq<Homes<S>>,
    answers: Seq<Option<Result<Mapping, SourceError>>>,
    layers: nat,
    last: Homes<S>,
) -> bool {
    &&& route.len() == layers + 1
    &&& answers.len() == layers
    &&& route[0] == first
    &&& route.last() == last
}

impl<S: LayerBufferSource> SceneLayer<S> {
    /// Ask the layer's source for its pixels.
    fn read_pixels(&mut self) -> (answer: Result<Mapping, SourceError>)
        ensures
            same_layer(*old(self), *final(self)),
            exists|asked: &mut S, access: MapAccess|
                access == MapAccess::Read && *asked == old(self).source && *final(asked)
                    == final(self).source && #[trigger] call_ensures(
                        S::map,
                        (asked, access),
                        answer,
                    ),
    {
        let access = MapAccess::Read;
        self.source.map(access)
    }
}

impl<S: LayerBufferSource> LayerScene<S> {
    /// Ask a layer's source for its pixels. `None` for a layer that is not in
    /// the scene.
    pub fn map_layer(&mut self, layer: LayerId) -> (answer: Option<Result<Mapping, SourceError>>)
        requires
            old(self).well_formed(),
        ensures
            final(self).well_formed(),
            same_layers(old(self).slots@, final(self).slots@),
            answer is Some <==> exists|i: int|
                lives_in(old(self).slots@, old(self).generations@, layer, i),
            answer is None ==> *final(self) == *old(self),
            answer matches Some(given) ==> exists|i: int, asked: &mut S, access: MapAccess|
                #![trigger lives_in(
                    old(self).slots@,
                    old(self).generations@,
                    layer,
                    i,
                ), call_ensures(
                    S::map,
                    (asked, access),
                    given,
                )]
                access == MapAccess::Read && lives_in(
                    old(self).slots@,
                    old(self).generations@,
                    layer,
                    i,
                ) && *asked == old(self).slots@[i]->0.source && *final(asked)
                    == final(self).slots@[i]->0.source && only_slot(
                    homes_of(*old(self)),
                    homes_of(*final(self)),
                    i,
                ) && call_ensures(S::map, (asked, access), given),
            *final(self) == (LayerScene { slots: final(self).slots, ..*old(self) }),
    {
        let ghost before = *self;
        match self.live_slot(layer) {
            Some(i) => {
                assert(lives_in(before.slots@, before.generations@, layer, i as int));
                let mut answer: Result<Mapping, SourceError> = Err(SourceError::Unsupported);
                if let Some(live) = &mut self.slots[i] {
                    answer = live.read_pixels();
                }
                assert(only_slot(homes_of(before), homes_of(*self), i as int));
                Some(answer)
            },
            None => None,
        }
    }

    /// Ask one layer for its pixels, if it overflows and is in the scene.
    fn ask_one(&mut self, layer: &LoweredLayer, assignment: &Assignment) -> (answer: Option<
        Result<Mapping, SourceError>,
    >)
        requires
            old(self).well_formed(),
        ensures
            final(self).well_formed(),
            same_layers(old(self).slots@, final(self).slots@),
            ({
                ||| exists|
                    i: int,
                    asked: &mut S,
                    access: MapAccess,
                    given: Result<Mapping, SourceError>,
                |
                    #![trigger lives_in(
                        homes_of(*old(self)).slots,
                        old(self).generations@,
                        layer.id,
                        i,
                    ), call_ensures(
                        S::map,
                        (asked, access),
                        given,
                    )]
                    answer == Some(given) && overflows(
                        *layer,
                        assignment.entries@,
                    ) && access == MapAccess::Read
                        && lives_in(
                            homes_of(*old(self)).slots,
                            old(self).generations@,
                            layer.id,
                            i,
                        ) && *asked == homes_of(*old(self)).slots[i]->0.source
                        && *final(asked) == homes_of(*final(self)).slots[i]->0.source && only_slot(
                            homes_of(*old(self)),
                            homes_of(*final(self)),
                            i,
                        )
                        && call_ensures(S::map, (asked, access), given)
                ||| unasked(
                    homes_of(*old(self)),
                    old(self).generations@,
                    *layer,
                    assignment.entries@,
                    answer,
                ) && homes_of(*final(self)) == homes_of(*old(self))
            }),
            *final(self) == (LayerScene { slots: final(self).slots, ..*old(self) }),
    {
        if layer.held || assignment.get_plane_of(layer.id).is_some() {
            proof {
                lemma_same_layers_reflexive(self.slots@);
            }
            return None;
        }
        let ghost before = homes_of(*self);
        let answer = self.map_layer(layer.id);
        proof {
            if answer is None {
                assert(not_in_scene(before, old(self).generations@, layer.id));
            }
        }
        answer
    }

    /// Ask the layers one after the other. The sources as they stood in between
    /// come back with the answers.
    #[verifier::rlimit(30)]
    fn ask_all(&mut self, layers: &Vec<LoweredLayer>, assignment: &Assignment) -> (round: (
        Vec<Option<Result<Mapping, SourceError>>>,
        Ghost<Seq<Homes<S>>>,
    ))
        requires
            old(self).well_formed(),
        ensures
            final(self).well_formed(),
            same_layers(old(self).slots@, final(self).slots@),
            asked_round(
                homes_of(*old(self)),
                round.1@,
                round.0@,
                layers@.len(),
                homes_of(*final(self)),
            ),
            forall|k: int|
                #![trigger round.1@[k]]
                0 <= k < layers@.len() ==> {
                    ||| exists|
                        i: int,
                        asked: &mut S,
                        access: MapAccess,
                        given: Result<Mapping, SourceError>,
                    |
                        #![trigger lives_in(
                            round.1@[k].slots,
                            old(self).generations@,
                            layers@[k].id,
                            i,
                        ), call_ensures(
                            S::map,
                            (asked, access),
                            given,
                        )]
                        round.0@[k] == Some(given) && overflows(
                            layers@[k],
                            assignment.entries@,
                        ) && access == MapAccess::Read
                            && lives_in(
                                round.1@[k].slots,
                                old(self).generations@,
                                layers@[k].id,
                                i,
                            ) && *asked == round.1@[k].slots[i]->0.source
                            && *final(asked) == round.1@[k + 1].slots[i]->0.source && only_slot(
                                round.1@[k],
                                round.1@[k + 1],
                                i,
                            )
                            && call_ensures(S::map, (asked, access), given)
                    ||| unasked(
                        round.1@[k],
                        old(self).generations@,
                        layers@[k],
                        assignment.entries@,
                        round.0@[k],
                    ) && round.1@[k + 1] == round.1@[k]
                },
            *final(self) == (LayerScene { slots: final(self).slots, ..*old(self) }),
    {
        let ghost mut route: Seq<Homes<S>> = seq![homes_of(*self)];
        let mut answers: Vec<Option<Result<Mapping, SourceError>>> = Vec::new();
        let mut at: usize = 0;
        proof {
            lemma_same_layers_reflexive(self.slots@);
        }
        while at < layers.len()
            invariant
                self.well_formed(),
                0 <= at <= layers@.len(),
                route.len() == at + 1,
                answers@.len() == at,
                route[0] == homes_of(*old(self)),
                route.last() == homes_of(*self),
                same_layers(old(self).slots@, self.slots@),
                forall|k: int|
                    #![trigger route[k]]
                    0 <= k < at ==> {
                        ||| exists|
                            i: int,
                            asked: &mut S,
                            access: MapAccess,
                            given: Result<Mapping, SourceError>,
                        |
                            #![trigger lives_in(
                                route[k].slots,
                                old(self).generations@,
                                layers@[k].id,
                                i,
                            ), call_ensures(
                                S::map,
                                (asked, access),
                                given,
                            )]
                            answers@[k] == Some(given) && overflows(
                                layers@[k],
                                assignment.entries@,
                            ) && access == MapAccess::Read
                                && lives_in(
                                    route[k].slots,
                                    old(self).generations@,
                                    layers@[k].id,
                                    i,
                                ) && *asked == route[k].slots[i]->0.source
                                && *final(asked) == route[k + 1].slots[i]->0.source && only_slot(
                                    route[k],
                                    route[k + 1],
                                    i,
                                )
                                && call_ensures(S::map, (asked, access), given)
                        ||| unasked(
                            route[k],
                            old(self).generations@,
                            layers@[k],
                            assignment.entries@,
                            answers@[k],
                        ) && route[k + 1] == route[k]
                    },
                *self == (LayerScene { slots: self.slots, ..*old(self) }),
            decreases layers@.len() - at,
        {
            let ghost before = self.slots@;
            let ghost route_before = route;
            let ghost answers_before = answers@;
            let answer = self.ask_one(&layers[at], assignment);
            answers.push(answer);
            proof {
                lemma_same_layers_transitive(old(self).slots@, before, self.slots@);
                route = route.push(homes_of(*self));
                assert forall|k: int|
                    #![trigger route[k]]
                    0 <= k < at + 1 implies {
                        ||| exists|
                            i: int,
                            asked: &mut S,
                            access: MapAccess,
                            given: Result<Mapping, SourceError>,
                        |
                            #![trigger lives_in(
                                route[k].slots,
                                old(self).generations@,
                                layers@[k].id,
                                i,
                            ), call_ensures(
                                S::map,
                                (asked, access),
                                given,
                            )]
                            answers@[k] == Some(given) && overflows(
                                layers@[k],
                                assignment.entries@,
                            ) && access == MapAccess::Read
                                && lives_in(
                                    route[k].slots,
                                    old(self).generations@,
                                    layers@[k].id,
                                    i,
                                ) && *asked == route[k].slots[i]->0.source
                                && *final(asked) == route[k + 1].slots[i]->0.source && only_slot(
                                    route[k],
                                    route[k + 1],
                                    i,
                                )
                                && call_ensures(S::map, (asked, access), given)
                        ||| unasked(
                            route[k],
                            old(self).generations@,
                            layers@[k],
                            assignment.entries@,
                            answers@[k],
                        ) && route[k + 1] == route[k]
                    } by {
                    if k < at {
                        assert(route_before[k] == route[k]);
                        assert(route_before[k + 1] == route[k + 1]);
                        assert(answers_before[k] == answers@[k]);
                    } else {
                        assert(route[k] == route_before.last());
                        assert(route[k + 1] == homes_of(*self));
                        assert(answers@[k] == answer);
                    }
                }
            }
            at += 1;
        }
        (answers, Ghost(route))
    }

    /// Ask every layer that overflows for its pixels, and gather those that can
    /// be blended. A layer whose source cannot be mapped is not among them.
    #[verifier::rlimit(30)]
    pub fn map_overflow(&mut self, layers: &Vec<LoweredLayer>, assignment: &Assignment) -> (mapped:
        Vec<MappedLayer>)
        requires
            old(self).well_formed(),
        ensures
            final(self).well_formed(),
            same_layers(old(self).slots@, final(self).slots@),
            exists|route: Seq<Homes<S>>, answers: Seq<Option<Result<Mapping, SourceError>>>|
                #![trigger asked_round(
                    homes_of(*old(self)),
                    route,
                    answers,
                    layers@.len(),
                    homes_of(*final(self)),
                )]
                asked_round(
                    homes_of(*old(self)),
                    route,
                    answers,
                    layers@.len(),
                    homes_of(*final(self)),
                ) && mapped@ == gathered(layers@, assignment.entries@, answers) && (forall|k: int|
                    #![trigger route[k]]
                    0 <= k < layers@.len() ==> {
                        ||| exists|
                            i: int,
                            asked: &mut S,
                            access: MapAccess,
                            given: Result<Mapping, SourceError>,
                        |
                            #![trigger lives_in(
                                route[k].slots,
                                old(self).generations@,
                                layers@[k].id,
                                i,
                            ), call_ensures(
                                S::map,
                                (asked, access),
                                given,
                            )]
                            answers[k] == Some(given) && overflows(
                                layers@[k],
                                assignment.entries@,
                            ) && access == MapAccess::Read
                                && lives_in(
                                    route[k].slots,
                                    old(self).generations@,
                                    layers@[k].id,
                                    i,
                                ) && *asked == route[k].slots[i]->0.source
                                && *final(asked) == route[k + 1].slots[i]->0.source && only_slot(
                                    route[k],
                                    route[k + 1],
                                    i,
                                )
                                && call_ensures(S::map, (asked, access), given)
                        ||| unasked(
                            route[k],
                            old(self).generations@,
                            layers@[k],
                            assignment.entries@,
                            answers[k],
                        ) && route[k + 1] == route[k]
                    }),
            *final(self) == (LayerScene { slots: final(self).slots, ..*old(self) }),
    {
        let (answers, route) = self.ask_all(layers, assignment);
        gather(layers, assignment, answers)
    }
}

/// Gather the layers that overflow and can be blended from what they answered.
pub fn gather(
    layers: &Vec<LoweredLayer>,
    assignment: &Assignment,
    answers: Vec<Option<Result<Mapping, SourceError>>>,
) -> (mapped: Vec<MappedLayer>)
    requires
        answers@.len() == layers@.len(),
    ensures
        mapped@ == gathered(layers@, assignment.entries@, answers@),
{
    let ghost all = answers@;
    let mut rest = answers;
    let mut mapped: Vec<MappedLayer> = Vec::new();
    let mut at: usize = 0;
    while at < layers.len()
        invariant
            0 <= at <= layers@.len(),
            all.len() == layers@.len(),
            rest@ == all.skip(at as int),
            mapped@ == gathered(layers@.take(at as int), assignment.entries@, all),
        decreases layers@.len() - at,
    {
        let entry: LoweredLayer = layers[at];
        let answer = rest.remove(0);
        proof {
            assert(answer == all[at as int]);
            assert(rest@ =~= all.skip(at + 1));
            assert(layers@.take(at + 1).drop_last() =~= layers@.take(at as int));
        }
        if let Some(Ok(mapping)) = answer {
            if !entry.held && assignment.get_plane_of(entry.id).is_none() && can_read(
                &entry.layer,
                &mapping,
            ) {
                mapped.push(MappedLayer { id: entry.id, layer: entry.layer, mapping });
            }
        }
        at += 1;
    }
    assert(layers@.take(layers@.len() as int) =~= layers@);
    mapped
}

fn can_read(layer: &Layer, mapping: &Mapping) -> (can: bool)
    ensures
        can == readable(*layer, *mapping),
{
    format_supported(stated_format(layer)) && mapping.stride as u64 >= mapping.width as u64 * 4
        && fits(mapping.pixels.len(), mapping.height, mapping.stride)
}

/// Paint a frame's canvas: swap its buffers, blend the layers over a
/// transparent shadow in stacking order, and copy the shadow into the buffer
/// that is shown next. Layers at one position keep the order they came in.
///
/// Says which layers are in it, undermost first.
pub fn paint(canvas: &mut CompositeCanvas, layers: Vec<MappedLayer>) -> (ids: Vec<LayerId>)
    requires
        old(canvas).well_formed(),
    ensures
        final(canvas).well_formed(),
        ids@ == ids_of(ordered::<MappedLayer>(layers@)),
        final(canvas).shadow@ == painted(
            Seq::new(old(canvas).shadow@.len(), |i: int| 0u8),
            old(canvas).width,
            old(canvas).height,
            ordered::<MappedLayer>(layers@),
        ),
        final(canvas).back.data@ == rows_copied(
            old(canvas).front.data@,
            old(canvas).front.stride as int,
            final(canvas).shadow@,
            old(canvas).width * 4,
            old(canvas).height as int,
        ),
        *final(canvas) == (CompositeCanvas {
            back: ScanoutBuffer { data: final(canvas).back.data, ..old(canvas).front },
            front: old(canvas).back,
            shadow: final(canvas).shadow,
            ..*old(canvas)
        }),
{
    canvas.begin_frame();
    canvas.clear();
    let ghost blank = canvas.shadow@;
    let ghost staged = *canvas;
    assert(views(layers@) =~= layers@);
    let stacked: Vec<MappedLayer> = sort(layers);
    assert(views(stacked@) =~= stacked@);
    let mut ids: Vec<LayerId> = Vec::new();
    let mut i: usize = 0;
    while i < stacked.len()
        invariant
            canvas.well_formed(),
            0 <= i <= stacked@.len(),
            ids@ == ids_of(stacked@.take(i as int)),
            canvas.shadow@ == painted(blank, staged.width, staged.height, stacked@.take(i as int)),
            *canvas == (CompositeCanvas { shadow: canvas.shadow, ..staged }),
        decreases stacked@.len() - i,
    {
        assert(stacked@.take(i + 1).drop_last() =~= stacked@.take(i as int));
        blend_one(canvas, &stacked[i]);
        ids.push(stacked[i].id);
        assert(ids@ =~= ids_of(stacked@.take(i + 1)));
        i += 1;
    }
    assert(stacked@.take(stacked@.len() as int) =~= stacked@);
    canvas.flush();
    ids
}

// --- laws --------------------------------------------------------------------

/// Painting goes from the undermost layer up, and paints every layer once.
pub proof fn law_layers_are_painted_from_below(layers: Seq<MappedLayer>)
    ensures
        forall|i: int, j: int|
            0 <= i < j < ordered::<MappedLayer>(layers).len() ==> (
            #[trigger] ordered::<MappedLayer>(layers)[i]).layer.or_zero(PropTag::Zpos) <= (
            #[trigger] ordered::<MappedLayer>(layers)[j]).layer.or_zero(PropTag::Zpos),
        ordered::<MappedLayer>(layers).to_multiset() =~= layers.to_multiset(),
{
    law_sorting_sorts::<MappedLayer>(layers);
    let stacked = ordered::<MappedLayer>(layers);
    assert forall|i: int, j: int| 0 <= i < j < stacked.len() implies (
    #[trigger] stacked[i]).layer.or_zero(PropTag::Zpos) <= (#[trigger] stacked[j]).layer.or_zero(
        PropTag::Zpos,
    ) by {
        assert(!MappedLayer::precedes(stacked[j], stacked[i]));
    }
}

/// What is gathered overflowed, and its source handed over pixels that can be
/// blended: a source that cannot be mapped never reaches the canvas.
pub proof fn law_only_what_was_read_is_gathered(
    layers: Seq<LoweredLayer>,
    entries: Seq<(u32, LayerId)>,
    answers: Seq<Option<Result<Mapping, SourceError>>>,
    n: int,
)
    requires
        layers.len() <= answers.len(),
        0 <= n < gathered(layers, entries, answers).len(),
    ensures
        exists|k: int|
            0 <= k < layers.len() && overflows(#[trigger] layers[k], entries) && gathered(
                layers,
                entries,
                answers,
            )[n].id == layers[k].id && answers[k] == Some(
                Ok::<Mapping, SourceError>(gathered(layers, entries, answers)[n].mapping),
            ) && readable(layers[k].layer, gathered(layers, entries, answers)[n].mapping),
    decreases layers.len(),
{
    if layers.len() > 0 {
        let rest = layers.drop_last();
        let before = gathered(rest, entries, answers);
        if n < before.len() {
            law_only_what_was_read_is_gathered(rest, entries, answers, n);
            let k = choose|k: int|
                0 <= k < rest.len() && overflows(#[trigger] rest[k], entries) && before[n].id
                    == rest[k].id && answers[k] == Some(
                    Ok::<Mapping, SourceError>(before[n].mapping),
                ) && readable(rest[k].layer, before[n].mapping);
            assert(layers[k] == rest[k]);
        } else {
            assert(overflows(layers[layers.len() - 1], entries));
        }
    }
}

/// The plane picked for the canvas is a candidate that can show it and is not
/// taken; where there is none, every candidate that could show it is taken.
pub proof fn law_the_picked_plane_can_show_the_canvas(
    candidates: Seq<u32>,
    registry: PlaneRegistry,
    entries: Seq<(u32, LayerId)>,
)
    ensures
        match last_free(candidates, registry, entries) {
            Some(plane_id) => candidates.contains(plane_id) && can_show(registry, plane_id)
                && !is_taken(entries, plane_id),
            None => forall|i: int|
                0 <= i < candidates.len() && can_show(registry, #[trigger] candidates[i])
                    ==> is_taken(entries, candidates[i]),
        },
    decreases candidates.len(),
{
    if candidates.len() > 0 {
        let rest = candidates.drop_last();
        law_the_picked_plane_can_show_the_canvas(rest, registry, entries);
        if can_show(registry, candidates.last()) && !is_taken(entries, candidates.last()) {
            assert(candidates[candidates.len() - 1] == candidates.last());
        } else {
            match last_free(rest, registry, entries) {
                Some(plane_id) => {
                    let i = choose|i: int| 0 <= i < rest.len() && rest[i] == plane_id;
                    assert(candidates[i] == plane_id);
                },
                None => {
                    assert forall|i: int|
                        0 <= i < candidates.len() && can_show(registry, #[trigger] candidates[i])
                            implies is_taken(entries, candidates[i]) by {
                        if i < rest.len() {
                            assert(rest[i] == candidates[i]);
                        }
                    }
                },
            }
        }
    }
}

/// The canvas covers the CRTC from its origin at its own size, unscaled, in its
/// own format, with the framebuffer that was painted and nothing turned or faded.
pub proof fn law_the_canvas_is_shown_whole(target: CanvasTarget, crtc_id: u32)
    ensures
        ({
            let held = canvas_layer(target, crtc_id).properties;
            &&& held.fb_id == Some(target.fb_id as u64)
            &&& held.crtc_id == Some(crtc_id as u64)
            &&& held.crtc_x == Some(0u64)
            &&& held.crtc_y == Some(0u64)
            &&& held.crtc_w == Some(target.width as u64)
            &&& held.crtc_h == Some(target.height as u64)
            &&& held.src_x == Some(0u64)
            &&& held.src_y == Some(0u64)
            &&& held.src_w == Some((target.width * 0x1_0000) as u64)
            &&& held.src_h == Some((target.height * 0x1_0000) as u64)
            &&& held.pixel_format == Some(0x3432_5241u64)
            &&& held.fb_modifier == Some(0u64)
            &&& held.zpos == Some(target.zpos)
            &&& held.rotation is None
            &&& held.alpha is None
            &&& held.in_fence_fd is None
            &&& !canvas_layer(target, crtc_id).externally_bound
        }),
{
}

/// The canvas goes above every layer and above their number, as low as that
/// allows.
pub proof fn law_the_canvas_stacks_above_the_layers(layers: Seq<LoweredLayer>, i: int)
    ensures
        0 <= i < layers.len() ==> above(layers) == u64::MAX || above(layers)
            > layers[i].layer.properties.zpos->0 || layers[i].layer.properties.zpos is None,
        above(layers) == u64::MAX || above(layers) > layers.len(),
        above(layers) < u64::MAX ==> above(layers) == layers.len() + 1 || exists|k: int|
            0 <= k < layers.len() && (#[trigger] layers[k]).layer.properties.zpos == Some(
                (above(layers) - 1) as u64,
            ),
{
    lemma_top_of(layers, i);
}

proof fn lemma_top_of(layers: Seq<LoweredLayer>, i: int)
    ensures
        0 <= i < layers.len() && layers[i].layer.properties.zpos is Some ==> top_of(layers)
            >= layers[i].layer.properties.zpos->0,
        top_of(layers) >= layers.len(),
        top_of(layers) == layers.len() || exists|k: int|
            0 <= k < layers.len() && (#[trigger] layers[k]).layer.properties.zpos is Some
                && layers[k].layer.properties.zpos->0 == top_of(layers),
    decreases layers.len(),
{
    if layers.len() > 0 {
        let rest = layers.drop_last();
        lemma_top_of(rest, i);
        assert(layers[layers.len() - 1] == layers.last());
        if 0 <= i < rest.len() {
            assert(rest[i] == layers[i]);
        }
        if top_of(layers) == top_of(rest) && top_of(rest) != rest.len() {
            let k = choose|k: int|
                0 <= k < rest.len() && (#[trigger] rest[k]).layer.properties.zpos is Some
                    && rest[k].layer.properties.zpos->0 == top_of(rest);
            assert(layers[k] == rest[k]);
        }
    }
}

/// Everything that can be blended is gathered: a layer that overflows and whose
/// source handed over readable pixels is among them, with those pixels.
pub proof fn law_everything_readable_is_gathered(
    layers: Seq<LoweredLayer>,
    entries: Seq<(u32, LayerId)>,
    answers: Seq<Option<Result<Mapping, SourceError>>>,
    k: int,
    mapping: Mapping,
)
    requires
        layers.len() <= answers.len(),
        0 <= k < layers.len(),
        !layers[k].held,
        forall|e: int| 0 <= e < entries.len() ==> (#[trigger] entries[e]).1 != layers[k].id,
        answers[k] == Some(Ok::<Mapping, SourceError>(mapping)),
        layers[k].layer.properties.pixel_format == Some(0x3432_5241u64)
            || layers[k].layer.properties.pixel_format == Some(0x3432_5258u64),
        mapping.stride >= mapping.width * 4,
        mapping.height * mapping.stride <= mapping.pixels@.len(),
    ensures
        gathered(layers, entries, answers).contains(
            MappedLayer { id: layers[k].id, layer: layers[k].layer, mapping },
        ),
    decreases layers.len(),
{
    let rest = layers.drop_last();
    let before = gathered(rest, entries, answers);
    let after = gathered(layers, entries, answers);
    let wanted = MappedLayer { id: layers[k].id, layer: layers[k].layer, mapping };
    law_the_first_entry_places_a_layer(entries, layers[k].id, 0);
    if k < rest.len() {
        assert(rest[k] == layers[k]);
        law_everything_readable_is_gathered(rest, entries, answers, k, mapping);
        let n = choose|n: int| 0 <= n < before.len() && before[n] == wanted;
        assert(after[n] == wanted);
    } else {
        assert(after[before.len() as int] == wanted);
    }
}

/// A layer is painted as it would have been shown on a plane: from the part of
/// its buffer it asks for, to the place it asks for, with the alpha it asks for
/// or none, read from its own pixels.
pub proof fn law_a_layer_is_painted_as_it_was_lowered(
    input: LoweringInput,
    mapped: MappedLayer,
)
    requires
        mapped.layer == lowered(input, Layer::empty()),
    ensures
        ({
            let display = input.display;
            let to = target_rect(mapped.layer);
            let from = shown_rect(mapped.layer);
            let surface = surface_of(mapped);
            &&& to.x == display.dst_rect.x
            &&& to.y == display.dst_rect.y
            &&& to.w == display.dst_rect.w
            &&& to.h == display.dst_rect.h
            &&& from.x == display.src_rect.x
            &&& from.y == display.src_rect.y
            &&& from.w == if display.src_rect.w != 0 {
                display.src_rect.w
            } else {
                input.format.width
            }
            &&& from.h == if display.src_rect.h != 0 {
                display.src_rect.h
            } else {
                input.format.height
            }
            &&& surface.pixels == mapped.mapping.pixels@
            &&& surface.src_stride_bytes == mapped.mapping.stride
            &&& surface.src_width == mapped.mapping.width
            &&& surface.src_height == mapped.mapping.height
            &&& surface.drm_fourcc == input.format.fourcc
            &&& surface.plane_alpha == match display.alpha {
                Some(alpha) => alpha,
                None => 0xFFFF,
            }
        }),
{
    law_lowering_shows_the_layer_as_asked(input, Layer::empty());
}

/// Each layer is blended over all those below it, the last uppermost.
pub proof fn law_an_upper_layer_is_blended_over_the_lower(
    shadow: Seq<u8>,
    width: u32,
    height: u32,
    layers: Seq<MappedLayer>,
    top: MappedLayer,
)
    ensures
        painted(shadow, width, height, Seq::empty()) == shadow,
        painted(shadow, width, height, layers.push(top)) == blended(
            painted(shadow, width, height, layers),
            width * 4,
            width as int,
            height as int,
            surface_of(top),
            shown_rect(top.layer),
            target_rect(top.layer),
        ),
        ids_of(layers.push(top)) == ids_of(layers).push(top.id),
{
    assert(layers.push(top).drop_last() =~= layers);
    assert(ids_of(layers.push(top)) =~= ids_of(layers).push(top.id));
}

/// Before a layer that overflows is read, the fence of its buffer is waited for;
/// no other fence is.
pub proof fn law_overflow_is_waited_for_before_it_is_read(
    layers: Seq<LoweredLayer>,
    entries: Seq<(u32, LayerId)>,
    acquisitions: Seq<Acquisition>,
    fd: i32,
)
    ensures
        overflow_fences(layers, entries, acquisitions).contains(fd) <==> exists|k: int|
            0 <= k < layers.len() && overflows(#[trigger] layers[k], entries) && fence_of(
                acquisitions,
                layers[k].id,
            ) == Some(fd),
    decreases layers.len(),
{
    if layers.len() > 0 {
        let rest = layers.drop_last();
        let before = overflow_fences(rest, entries, acquisitions);
        let after = overflow_fences(layers, entries, acquisitions);
        law_overflow_is_waited_for_before_it_is_read(rest, entries, acquisitions, fd);
        assert(layers[layers.len() - 1] == layers.last());
        if after.contains(fd) {
            let i = choose|i: int| 0 <= i < after.len() && after[i] == fd;
            if i < before.len() {
                assert(before[i] == fd);
                let k = choose|k: int|
                    0 <= k < rest.len() && overflows(#[trigger] rest[k], entries) && fence_of(
                        acquisitions,
                        rest[k].id,
                    ) == Some(fd);
                assert(layers[k] == rest[k]);
            } else {
                assert(overflows(layers[layers.len() - 1], entries));
            }
        }
        if exists|k: int|
            0 <= k < layers.len() && overflows(#[trigger] layers[k], entries) && fence_of(
                acquisitions,
                layers[k].id,
            ) == Some(fd) {
            let k = choose|k: int|
                0 <= k < layers.len() && overflows(#[trigger] layers[k], entries) && fence_of(
                    acquisitions,
                    layers[k].id,
                ) == Some(fd);
            if k < rest.len() {
                assert(rest[k] == layers[k]);
                let i = choose|i: int| 0 <= i < before.len() && before[i] == fd;
                assert(after[i] == fd);
            } else {
                assert(after[before.len() as int] == fd);
            }
        }
    }
}

/// A plane can show the canvas if the first capabilities with its id take the
/// canvas's format and are no cursor's; it is taken if the search put a layer on
/// it.
pub proof fn law_a_plane_shows_the_canvas_by_its_capabilities(
    registry: PlaneRegistry,
    plane_id: u32,
    at: int,
)
    requires
        describes_first(registry.planes@, plane_id, at),
    ensures
        can_show(registry, plane_id) <==> registry.planes@[at].plane_type != PlaneType::Cursor
            && registry.planes@[at].formats@.contains(0x3432_5241u32),
{
    law_the_first_plane_of_an_id_answers(registry.planes@, plane_id, at);
}

/// A layer goes unasked only where it does not overflow, or is no longer in the
/// scene.
pub proof fn law_only_overflow_is_asked<S>(
    homes: Homes<S>,
    generations: Seq<u32>,
    layer: LoweredLayer,
    entries: Seq<(u32, LayerId)>,
    answer: Option<Result<Mapping, SourceError>>,
    i: int,
)
    requires
        unasked(homes, generations, layer, entries, answer),
    ensures
        answer is None,
        lives_in(homes.slots, generations, layer.id, i) ==> !overflows(layer, entries),
{
}

/// A round of asking takes one step and gets one answer for each layer.
pub proof fn law_every_layer_is_one_step<S>(
    first: Homes<S>,
    route: Seq<Homes<S>>,
    answers: Seq<Option<Result<Mapping, SourceError>>>,
    layers: nat,
    last: Homes<S>,
)
    requires
        asked_round(first, route, answers, layers, last),
    ensures
        answers.len() == layers,
        route.len() == layers + 1,
        route[0] == first,
        route[layers as int] == last,
{
}

/// Something overflows exactly where some layer does.
pub proof fn law_one_layer_is_enough_to_overflow(
    layers: Seq<LoweredLayer>,
    entries: Seq<(u32, LayerId)>,
    i: int,
)
    ensures
        0 <= i < layers.len() && overflows(layers[i], entries) ==> some_overflows(layers, entries),
        (forall|k: int| 0 <= k < layers.len() ==> !overflows(#[trigger] layers[k], entries))
            ==> !some_overflows(layers, entries),
{
}

} // verus!
