//! Layers no plane was found for, and what is reported of a frame's request.

use drmkit::canvas::{CompositeCanvas, ScanoutBuffer};
use drmkit::commit::{
    arm_damage, emit_frame, list_damage, record_emission, AtomicRequest, PlanePropertyMap,
    PropertyInfo,
};
use drmkit::compose::{
    any_overflows, gather, paint, pick_canvas_plane, plane_to_hold_back, CanvasTarget, Composition,
};
use drmkit::display::{DisplayParams, Rect};
use drmkit::draft::FrameDraft;
use drmkit::dumb::DumbBufferSource;
use drmkit::errno::{Errno, EINVAL};
use drmkit::fourcc::{ARGB8888, XRGB8888};
use drmkit::frame::{CommitKind, KernelResult};
use drmkit::plan::FrameBuild;
use drmkit::planes::{
    Allocation, Assignment, LayerId, PlaneCapabilities, PlaneRegistry, PlaneType, PropTag,
    TestFailure,
};
use drmkit::report::Placement;
use drmkit::scene::{LayerHandle, LayerScene};
use drmkit::source::{
    AcquiredBuffer, DamageRect, LayerBufferSource, MapAccess, Mapping, SourceError, SourceFormat,
};

/// A source that may or may not let its pixels be read.
struct Source {
    inner: DumbBufferSource,
    mappable: bool,
}

impl LayerBufferSource for Source {
    fn acquire(&mut self) -> Result<AcquiredBuffer, SourceError> {
        self.inner.acquire()
    }

    fn release(&mut self, acquired: AcquiredBuffer) {
        self.inner.release(acquired);
    }

    fn format(&self) -> SourceFormat {
        self.inner.format()
    }

    fn map(&mut self, access: MapAccess) -> Result<Mapping, SourceError> {
        if self.mappable {
            self.inner.map(access)
        } else {
            Err(SourceError::Unsupported)
        }
    }
}

fn dumb(fb_id: u32, argb: u32) -> DumbBufferSource {
    let buffer = ScanoutBuffer {
        stride: 8,
        data: argb.to_ne_bytes().repeat(4),
        fb_id: Some(fb_id),
    };
    DumbBufferSource::create(2, 2, ARGB8888, Ok(buffer)).expect("source")
}

fn plane(id: u32, plane_type: PlaneType) -> PlaneCapabilities {
    PlaneCapabilities {
        id,
        possible_crtcs: 1,
        plane_type,
        formats: vec![ARGB8888],
        ..PlaneCapabilities::default()
    }
}

fn registry(planes: u32) -> PlaneRegistry {
    PlaneRegistry::from_capabilities(
        (0..planes)
            .map(|i| plane(31 + i, PlaneType::Overlay))
            .collect(),
    )
}

fn candidates(registry: &PlaneRegistry) -> Vec<u32> {
    registry.all().iter().map(|plane| plane.id).collect()
}

fn canvas() -> CompositeCanvas {
    let buffer = |fb_id: u32| ScanoutBuffer {
        stride: 16,
        data: vec![0; 64],
        fb_id: Some(fb_id),
    };
    CompositeCanvas::create(buffer(900), buffer(901), 4, 4)
}

fn add(scene: &mut LayerScene<Source>, fb_id: u32, argb: u32, zpos: u64, mappable: bool) -> LayerHandle {
    let handle = scene.add_layer(Source {
        inner: dumb(fb_id, argb),
        mappable,
    });
    scene
        .layer_mut(handle)
        .expect("layer")
        .set_display(DisplayParams {
            dst_rect: Rect { x: 0, y: 0, w: 2, h: 2 },
            zpos: Some(zpos),
            ..DisplayParams::default()
        });
    handle
}

/// Layers on planes in order, as many as there are planes but the one held back.
fn place(draft: &FrameDraft, planes: &[u32], held_back: Option<u32>) -> Allocation {
    let free: Vec<u32> = planes
        .iter()
        .copied()
        .filter(|plane| Some(*plane) != held_back)
        .collect();
    let entries: Vec<(u32, LayerId)> = free
        .iter()
        .copied()
        .zip(draft.lowered.iter().map(|layer| layer.id))
        .collect();
    let composited = draft
        .lowered
        .iter()
        .skip(entries.len())
        .map(|layer| layer.id)
        .collect();
    Allocation {
        assignment: Assignment { entries },
        composited,
        test_commits_issued: 1,
        fb_delta_fast_path: false,
        budget_exhausted: false,
    }
}

fn compose(
    scene: &mut LayerScene<Source>,
    draft: &FrameDraft,
    assignment: &Assignment,
    plane_id: u32,
    canvas: &mut CompositeCanvas,
) -> Composition {
    let mapped = scene.map_overflow(&draft.lowered, assignment);
    let mapped = paint(canvas, mapped);
    let target = CanvasTarget::aim(canvas, plane_id, &draft.lowered, &PlanePropertyMap::new())
        .expect("an armable canvas");
    Composition {
        target,
        mapped,
        waits: 0,
    }
}

fn build(
    scene: &mut LayerScene<Source>,
    registry: &PlaneRegistry,
    canvas: &mut CompositeCanvas,
) -> FrameBuild {
    let planes = candidates(registry);
    let draft = scene.draft_frame().expect("draft");
    let mut placed = Ok(place(&draft, &planes, None));
    let mut offered = None;
    if let Some(kept) = plane_to_hold_back(&draft.lowered, &placed, &planes, registry) {
        let again = place(&draft, &planes, Some(kept));
        offered = Some(compose(scene, &draft, &again.assignment, kept, canvas));
        placed = Ok(again);
    }
    scene
        .build_frame(
            draft,
            placed,
            registry,
            &planes,
            CommitKind::Real { arms_flip: false },
            offered,
        )
        .expect("build")
}

#[test]
fn a_scene_that_fits_composites_nothing_vkms() {
    let registry = registry(3);
    let mut scene = LayerScene::new(7);
    for i in 0..3 {
        add(&mut scene, 100 + i, 0xFFFF_FFFF, u64::from(i), true);
    }
    let build = build(&mut scene, &registry, &mut canvas());
    assert_eq!(build.report().layers_composited, 0);
    assert_eq!(build.report().layers_assigned, 3);
    assert_eq!(build.report().composition_buckets, 0);
    assert_eq!(build.plan().len(), 3);
    assert!(build.report().accounting_balances());
    scene.finalize_frame(build, KernelResult::Applied);
}

#[test]
fn layers_beyond_the_plane_count_are_composited_vkms() {
    let registry = registry(3);
    let mut scene = LayerScene::new(7);
    let mut handles = Vec::new();
    for i in 0..5 {
        handles.push(add(&mut scene, 100 + i, 0xFFFF_FFFF, u64::from(i), true));
    }
    let build = build(&mut scene, &registry, &mut canvas());
    let report = build.report();
    assert_eq!(report.layers_assigned, 2);
    assert_eq!(report.layers_composited, 3);
    assert_eq!(report.layers_unassigned, 0);
    assert_eq!(report.composition_buckets, 1);
    assert!(report.accounting_balances());
    assert!(report.was_composited(handles[4].layer_id()));
    assert!(!report.was_composited(handles[0].layer_id()));
    let last = report.placement_of(handles[4].layer_id()).expect("placed");
    assert_eq!(last.placement, Placement::Composited);
    assert_eq!(last.plane_id, Some(33));

    let mut used: Vec<u32> = build.plan().iter().map(|entry| entry.plane_id).collect();
    assert_eq!(used, vec![31, 32, 33]);
    used.dedup();
    assert_eq!(used.len(), build.plan().len());
    let entry = build.plan().last().expect("the canvas");
    assert_eq!(entry.layer.property(PropTag::FbId), Some(901));
    assert_eq!(entry.layer.property(PropTag::CrtcId), Some(7));
    assert_eq!(entry.layer.property(PropTag::CrtcW), Some(4));
    assert_eq!(entry.layer.property(PropTag::SrcH), Some(4 << 16));
    assert_eq!(entry.layer.property(PropTag::Zpos), Some(6), "above five layers");
    scene.finalize_frame(build, KernelResult::Applied);
}

#[test]
fn the_canvas_plane_is_not_also_disabled_vkms() {
    let registry = registry(3);
    let mut scene = LayerScene::new(7);
    for i in 0..5 {
        add(&mut scene, 100 + i, 0xFFFF_FFFF, u64::from(i), true);
    }
    let mut surface = canvas();
    let first = build(&mut scene, &registry, &mut surface);
    let canvas_plane = first.plan().last().expect("planned").plane_id;
    scene.finalize_frame(first, KernelResult::Applied);

    let second = build(&mut scene, &registry, &mut surface);
    let armed: Vec<u32> = second.plan().iter().map(|entry| entry.plane_id).collect();
    assert!(second.report().layers_composited > 0);
    assert!(armed.contains(&canvas_plane));
    assert!(second.plan().last().expect("planned").baseline.is_some());
    assert!(armed.iter().all(|plane| !second.disables().contains(plane)));
    scene.finalize_frame(second, KernelResult::Applied);
}

#[test]
fn a_canvas_no_longer_needed_is_switched_off() {
    let registry = registry(2);
    let mut scene = LayerScene::new(7);
    let handles: Vec<LayerHandle> = (0..3)
        .map(|i| add(&mut scene, 100 + i, 0xFFFF_FFFF, u64::from(i), true))
        .collect();
    let mut surface = canvas();
    let first = build(&mut scene, &registry, &mut surface);
    assert_eq!(first.plan().last().expect("canvas").plane_id, 32);
    scene.finalize_frame(first, KernelResult::Applied);
    scene.remove_layer(handles[1]);
    scene.remove_layer(handles[2]);
    let second = build(&mut scene, &registry, &mut surface);
    assert_eq!(second.disables(), &vec![32]);
    scene.finalize_frame(second, KernelResult::Applied);
}

#[test]
fn an_unmappable_source_is_not_rescued_vkms() {
    let registry = registry(2);
    let mut scene = LayerScene::new(7);
    for i in 0..4 {
        add(&mut scene, 100 + i, 0xFFFF_FFFF, u64::from(i), true);
    }
    let mut opaque = Vec::new();
    for i in 0..4 {
        opaque.push(add(&mut scene, 200 + i, 0xFFFF_FFFF, 64, false));
    }
    let build = build(&mut scene, &registry, &mut canvas());
    let report = build.report();
    assert!(report.accounting_balances());
    assert_eq!(report.layers_composited, 3);
    assert_eq!(report.layers_unassigned, 4);
    assert!(!report.was_composited(opaque[0].layer_id()));
    scene.finalize_frame(build, KernelResult::Applied);
}

#[test]
fn a_canvas_on_a_used_plane_is_not_taken_up() {
    let registry = registry(1);
    let mut scene = LayerScene::new(7);
    for i in 0..2 {
        add(&mut scene, 100 + i, 0xFFFF_FFFF, u64::from(i), true);
    }
    let draft = scene.draft_frame().expect("draft");
    let placed = place(&draft, &[31], None);
    let offered = compose(&mut scene, &draft, &placed.assignment, 31, &mut canvas());
    let build = scene
        .build_frame(
            draft,
            Ok(placed),
            &registry,
            &[31],
            CommitKind::Test,
            Some(offered),
        )
        .expect("build");
    assert_eq!(build.report().layers_composited, 0);
    assert_eq!(build.report().layers_unassigned, 1);
    assert_eq!(build.plan().len(), 1);
    scene.finalize_frame(build, KernelResult::Applied);
}

#[test]
fn a_refused_search_leaves_everything_to_the_canvas() {
    let registry = registry(1);
    let mut scene = LayerScene::new(7);
    let handle = add(&mut scene, 100, 0xFFFF_FFFF, 0, true);
    let draft = scene.draft_frame().expect("draft");
    let nothing = Allocation::nothing();
    let offered = compose(&mut scene, &draft, &nothing.assignment, 31, &mut canvas());
    let build = scene
        .build_frame(
            draft,
            Err(TestFailure::Rejected),
            &registry,
            &[31],
            CommitKind::Test,
            Some(offered),
        )
        .expect("build");
    assert_eq!(build.report().layers_composited, 1);
    assert!(build.report().was_composited(handle.layer_id()));
    scene.finalize_frame(build, KernelResult::Applied);
}

#[test]
fn layers_are_painted_in_stacking_order() {
    let mut scene = LayerScene::new(7);
    let upper = add(&mut scene, 100, 0xFF11_2233, 9, true);
    let lower = add(&mut scene, 101, 0xFF44_5566, 3, true);
    let draft = scene.draft_frame().expect("draft");
    let nothing = Allocation::nothing();
    let mut surface = canvas();
    let offered = compose(&mut scene, &draft, &nothing.assignment, 31, &mut surface);
    assert_eq!(offered.mapped, vec![lower.layer_id(), upper.layer_id()]);
    assert_eq!(surface.back_pixel(0, 0), 0xFF11_2233);
    assert_eq!(surface.back_pixel(1, 1), 0xFF11_2233);
    assert_eq!(surface.back_pixel(2, 2), 0, "outside every layer");
    assert_eq!(offered.target.fb_id, 901);
    assert_eq!(offered.target.zpos, 10);
}

#[test]
fn a_free_plane_is_preferred_for_the_canvas() {
    let mut planes = vec![
        plane(1, PlaneType::Primary),
        plane(2, PlaneType::Overlay),
        plane(3, PlaneType::Cursor),
    ];
    planes.push(PlaneCapabilities {
        formats: vec![XRGB8888],
        ..plane(4, PlaneType::Overlay)
    });
    let registry = PlaneRegistry::from_capabilities(planes);
    let all = [1, 2, 3, 4];
    let taking = |planes: &[u32]| Assignment {
        entries: planes.iter().map(|id| (*id, LayerId(u64::from(*id)))).collect(),
    };
    assert_eq!(pick_canvas_plane(&all, &registry, &taking(&[])), Some(2));
    assert_eq!(pick_canvas_plane(&all, &registry, &taking(&[2])), Some(1));
    assert_eq!(pick_canvas_plane(&all, &registry, &taking(&[1, 2])), Some(2));
    assert_eq!(pick_canvas_plane(&[3, 4], &registry, &taking(&[])), None);
}

// --- damage and counters ------------------------------------------------------

fn property(id: u32, name: &str) -> PropertyInfo {
    PropertyInfo {
        id,
        name: name.to_owned(),
        immutable: false,
        entries: Vec::new(),
        range: None,
    }
}

fn map(damage: bool) -> PlanePropertyMap {
    let mut properties = vec![property(1, "FB_ID"), property(2, "CRTC_ID")];
    if damage {
        properties.push(property(3, "FB_DAMAGE_CLIPS"));
    }
    let mut map = PlanePropertyMap::new();
    map.learn_plane(31, &properties).expect("learn");
    map
}

fn damaged_build(scene: &mut LayerScene<Source>, rects: &[DamageRect]) -> FrameBuild {
    let mut inner = dumb(100, 0xFFFF_FFFF);
    inner.set_damage(rects);
    scene.add_layer(Source {
        inner,
        mappable: true,
    });
    build(scene, &registry(1), &mut canvas())
}

fn rect(x: i32, w: u32) -> DamageRect {
    DamageRect { x, y: 10, w, h: 64 }
}

#[test]
fn a_damaged_layer_arms_one_clip_list() {
    let mut scene = LayerScene::new(7);
    let mut build = damaged_build(&mut scene, &[rect(10, 64), rect(5, 0), rect(i32::MAX, 8)]);
    let map = map(true);
    let damage = list_damage(&build, &map);
    assert_eq!(damage.len(), 1);
    assert_eq!((damage[0].plane_id, damage[0].property_id), (31, 3));
    assert_eq!(damage[0].clips.len(), 2, "no clip for an empty region");
    assert_eq!(damage[0].clips[0].x2, 74);
    assert_eq!(damage[0].clips[0].y2, 74);
    assert_eq!(damage[0].clips[1].x2, i32::MAX);

    let mut request = AtomicRequest::new();
    let written = emit_frame(&mut request, &map, build.plan(), build.disables(), None);
    arm_damage(&mut build, &mut request, &damage, &vec![77]);
    record_emission(&mut build, &request, &map);
    assert_eq!(request.writes().last().expect("a write").value, 77);
    assert_eq!(build.report().damaged_layers, 1);
    assert_eq!(build.report().properties_written, written + 1);
    assert_eq!(build.report().fbs_attached, 1);
    let report = scene.finalize_frame(build, KernelResult::Applied);
    assert_eq!(report.damaged_layers, 1);
    assert_eq!(report.fbs_attached, 1);
}

#[test]
fn a_plane_without_clips_is_shown_in_full() {
    let mut scene = LayerScene::new(7);
    let build = damaged_build(&mut scene, &[rect(10, 64)]);
    assert!(list_damage(&build, &map(false)).is_empty());
    scene.finalize_frame(build, KernelResult::Applied);
}

#[test]
fn too_much_damage_is_shown_in_full() {
    let mut scene = LayerScene::new(7);
    let many: Vec<DamageRect> = (0..17).map(|i| rect(i, 1)).collect();
    let build = damaged_build(&mut scene, &many);
    assert!(list_damage(&build, &map(true)).is_empty());
    scene.finalize_frame(build, KernelResult::Applied);
}

#[test]
fn switching_a_plane_off_attaches_nothing() {
    let mut scene: LayerScene<Source> = LayerScene::new(7);
    let handle = add(&mut scene, 100, 0xFFFF_FFFF, 0, true);
    let registry = registry(1);
    let first = build(&mut scene, &registry, &mut canvas());
    scene.finalize_frame(first, KernelResult::Applied);
    scene.remove_layer(handle);
    let mut second = build(&mut scene, &registry, &mut canvas());
    let map = map(false);
    let mut request = AtomicRequest::new();
    emit_frame(&mut request, &map, second.plan(), second.disables(), None);
    record_emission(&mut second, &request, &map);
    assert_eq!(second.report().properties_written, 2);
    assert_eq!(second.report().fbs_attached, 0);
    scene.finalize_frame(second, KernelResult::Applied);
}

// --- buffers across a mapping and a session -----------------------------------

#[test]
fn a_dumb_source_maps_a_writable_coherent_view_vkms() {
    let buffer = ScanoutBuffer {
        stride: 160,
        data: vec![0; 160 * 32],
        fb_id: Some(100),
    };
    let mut source = DumbBufferSource::create(32, 32, XRGB8888, Ok(buffer)).expect("create");

    let mut view = source.map(MapAccess::Write).expect("map");
    assert_eq!(view.width, 32);
    assert_eq!(view.height, 32);
    let row = view.stride as usize;
    view.pixels[..row].fill(0xab);
    source.unmap(view, MapAccess::Write);

    let view = source.map(MapAccess::Read).expect("map");
    assert!(view.pixels[..row].iter().all(|b| *b == 0xab));
    assert!(view.pixels[row..].iter().all(|b| *b == 0));
}

#[test]
fn a_view_taken_for_reading_changes_nothing() {
    let mut source = dumb(100, 0);
    let mut view = source.map(MapAccess::Read).expect("map");
    view.pixels[0] = 0x11;
    source.unmap(view, MapAccess::Read);
    assert_eq!(source.buffer().data[0], 0);
}

#[test]
fn a_resumed_source_shows_nothing_until_it_has_a_buffer() {
    let mut source = dumb(100, 0);
    let refused = Err(SourceError::Failed(Errno { raw: EINVAL }));
    assert_eq!(source.on_session_resumed(3), refused);
    assert!(source.acquire().is_err());
    let buffer = ScanoutBuffer {
        stride: 8,
        data: vec![0; 16],
        fb_id: Some(200),
    };
    assert_eq!(source.resume_with(Ok(buffer)), Ok(()));
    assert_eq!(source.acquire().expect("buffer").fb_id, 200);
}

#[test]
fn only_what_can_be_read_is_gathered() {
    let mut scene = LayerScene::new(7);
    for i in 0..4 {
        add(&mut scene, 100 + i, 0xFFFF_FFFF, u64::from(i), true);
    }
    let draft = scene.draft_frame().expect("draft");
    let mapping = |stride: u32| Mapping {
        pixels: vec![0; 16],
        stride,
        width: 2,
        height: 2,
    };
    let first = draft.lowered[0].id;
    let assignment = Assignment {
        entries: vec![(31, first)],
    };
    let answers = vec![
        Some(Ok(mapping(8))),
        Some(Ok(mapping(8))),
        Some(Ok(mapping(16))),
        Some(Err(SourceError::Unsupported)),
    ];
    let mapped = gather(&draft.lowered, &assignment, answers);
    let ids: Vec<LayerId> = mapped.iter().map(|layer| layer.id).collect();
    assert_eq!(ids, vec![draft.lowered[1].id]);
    assert!(scene.map_layer(LayerId(999)).is_none());
}

#[test]
fn a_plane_is_held_back_only_where_a_layer_overflows() {
    let registry = registry(2);
    let mut scene = LayerScene::new(7);
    for i in 0..2 {
        add(&mut scene, 100 + i, 0xFFFF_FFFF, u64::from(i), true);
    }
    let draft = scene.draft_frame().expect("draft");
    let both = Ok(place(&draft, &[31, 32], None));
    let held_back = |placed: &Result<Allocation, TestFailure>| {
        plane_to_hold_back(&draft.lowered, placed, &[31, 32], &registry)
    };
    assert_eq!(held_back(&both), None);
    let one = place(&draft, &[31], None);
    assert!(any_overflows(&draft.lowered, &one.assignment));
    assert_eq!(held_back(&Ok(one)), Some(32));
    assert_eq!(held_back(&Err(TestFailure::Rejected)), Some(32));
    assert_eq!(held_back(&Err(TestFailure::NotMaster)), None);
}
