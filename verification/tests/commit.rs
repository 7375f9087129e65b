//! What an atomic request is made of.

use drmkit::commit::{
    arm_acquire_fences, classify, emit_color_props, emit_disable, emit_frame, emit_layer,
    needs_write, test_verdict, AtomicRequest, CommitError, DeviceCommitter, EnumEntry, LearnError,
    Modeset, PlanePropertyMap, PropertyInfo, PropertyWrite, TriedLayer, DEFAULT_COLOR_ENCODING,
    DEFAULT_COLOR_RANGE,
};
use drmkit::frame::{CommitKind, KernelResult};
use drmkit::plan::{FrameBuild, PlanePlan};
use drmkit::planes::{
    Layer, LayerId, PlaneCapabilities, PlaneRegistry, PlaneType, PropTag, TagTable,
    TestFailure,
};
use drmkit::release::Acquisition;
use drmkit::report::CommitReport;
use drmkit::source::AcquiredBuffer;
use drmkit::sync::SyncFence;

fn property(id: u32, name: &str) -> PropertyInfo {
    PropertyInfo {
        id,
        name: name.to_owned(),
        immutable: false,
        entries: vec![],
        range: None,
    }
}

/// A plane with the properties a commit writes, numbered from `base`.
fn plane_properties(base: u32) -> Vec<PropertyInfo> {
    [
        "FB_ID", "CRTC_ID", "CRTC_X", "CRTC_Y", "CRTC_W", "CRTC_H", "SRC_X", "SRC_Y", "SRC_W",
        "SRC_H", "zpos",
    ]
    .iter()
    .enumerate()
    .map(|(i, name)| PropertyInfo {
        range: if *name == "zpos" { Some((1, 17)) } else { None },
        ..property(base + i as u32, name)
    })
    .collect()
}

fn known() -> PlanePropertyMap {
    let mut map = PlanePropertyMap::new();
    map.learn_plane(31, &plane_properties(100)).expect("learn");
    map.learn_plane(32, &plane_properties(200)).expect("learn");
    map
}

fn write(object_id: u32, property_id: u32, value: u64) -> PropertyWrite {
    PropertyWrite {
        object_id,
        property_id,
        value,
    }
}

fn layer(pairs: &[(PropTag, u64)]) -> Layer {
    let mut layer = Layer::new();
    for (tag, value) in pairs {
        layer.set_property(*tag, *value);
    }
    layer
}

#[test]
fn a_plane_is_learned_by_name() {
    let map = known();
    assert_eq!(map.len(), 2);
    assert!(!map.is_empty());
    assert_eq!(map.property_id(31, PropTag::FbId), Some(100));
    assert_eq!(map.property_id(32, PropTag::CrtcW), Some(204));
    assert_eq!(map.property_id(31, PropTag::Alpha), None);
    assert_eq!(map.property_id(9, PropTag::FbId), None);
    assert_eq!(map.clamp_zpos(31, 40), 17);
}

#[test]
fn an_immutable_property_is_known_and_not_written() {
    let mut map = PlanePropertyMap::new();
    let mut pinned = property(7, "zpos");
    pinned.immutable = true;
    map.learn_plane(31, &[property(5, "FB_ID"), pinned])
        .expect("learn");
    assert!(map.is_immutable(31, PropTag::Zpos));
    assert!(!map.is_immutable(31, PropTag::FbId));
    assert_eq!(map.property_id(31, PropTag::Zpos), None);

    let mut request = AtomicRequest::new();
    let written = emit_layer(
        &mut request,
        &map,
        31,
        &layer(&[(PropTag::FbId, 40), (PropTag::Zpos, 3)]),
        None,
    );
    assert_eq!(written, 1);
    assert_eq!(*request.writes(), vec![write(31, 5, 40)]);
}

#[test]
fn a_steady_layer_rewrites_only_its_framebuffer() {
    let map = known();
    let now = layer(&[
        (PropTag::FbId, 41),
        (PropTag::CrtcX, 10),
        (PropTag::CrtcW, 64),
    ]);
    let mut first = AtomicRequest::with_capacity(8);
    assert_eq!(emit_layer(&mut first, &map, 31, &now, None), 3);
    let mut steady = AtomicRequest::new();
    assert_eq!(
        emit_layer(&mut steady, &map, 31, &now, Some(&now.properties)),
        1
    );
    assert_eq!(steady.writes, vec![write(31, 100, 41)]);

    let moved = layer(&[
        (PropTag::FbId, 41),
        (PropTag::CrtcX, 11),
        (PropTag::CrtcW, 64),
    ]);
    let mut request = AtomicRequest::new();
    emit_layer(&mut request, &map, 31, &moved, Some(&now.properties));
    assert_eq!(request.writes, vec![write(31, 100, 41), write(31, 102, 11)]);
}

#[test]
fn hints_never_reach_the_kernel() {
    let mut map = PlanePropertyMap::new();
    map.learn_plane(31, &[property(5, "pixel_format"), property(6, "FB_MODIFIER")])
        .expect("learn");
    let mut request = AtomicRequest::new();
    let hinted = layer(&[(PropTag::PixelFormat, 1), (PropTag::FbModifier, 2)]);
    assert_eq!(emit_layer(&mut request, &map, 31, &hinted, None), 0);
    assert!(request.writes.is_empty());
}

#[test]
fn what_needs_writing() {
    let held = layer(&[(PropTag::CrtcX, 10), (PropTag::FbId, 4)]).properties;
    assert!(needs_write(PropTag::CrtcX, 10, None));
    assert!(!needs_write(PropTag::CrtcX, 10, Some(&held)));
    assert!(needs_write(PropTag::CrtcX, 12, Some(&held)));
    assert!(needs_write(PropTag::CrtcY, 0, Some(&held)), "not held yet");
    assert!(needs_write(PropTag::FbId, 4, Some(&held)), "always attached");
}

#[test]
fn a_requested_stacking_position_is_sent_as_it_is() {
    let map = known();
    let mut request = AtomicRequest::new();
    let asked = layer(&[(PropTag::Zpos, 19)]);
    emit_layer(&mut request, &map, 31, &asked, None);
    assert_eq!(request.writes, vec![write(31, 110, 19)]);
    assert_eq!(map.clamp_zpos(31, 19), 17, "a derived one is bent to fit");
}

#[test]
fn an_externally_bound_layer_keeps_its_framebuffer_to_itself() {
    let map = known();
    let mut bound = layer(&[(PropTag::FbId, 40), (PropTag::CrtcX, 2)]);
    bound.set_externally_bound(true);
    let mut request = AtomicRequest::new();
    assert_eq!(emit_layer(&mut request, &map, 31, &bound, None), 1);
    assert_eq!(request.writes, vec![write(31, 102, 2)]);
}

#[test]
fn a_plane_is_switched_off_by_two_writes() {
    let map = known();
    let mut request = AtomicRequest::new();
    assert_eq!(emit_disable(&mut request, &map, 32), 2);
    assert_eq!(request.writes, vec![write(32, 200, 0), write(32, 201, 0)]);
    assert_eq!(emit_disable(&mut request, &map, 9), 0, "an unknown plane");
}

fn choice(id: u32, name: &str, entry: &str, value: u64) -> PropertyInfo {
    PropertyInfo {
        entries: vec![
            EnumEntry {
                name: "other".to_owned(),
                value: 9,
            },
            EnumEntry {
                name: entry.to_owned(),
                value,
            },
        ],
        ..property(id, name)
    }
}

#[test]
fn colorimetry_is_written_once_not_every_frame() {
    let mut map = PlanePropertyMap::new();
    map.learn_plane(
        31,
        &[
            choice(50, "COLOR_ENCODING", DEFAULT_COLOR_ENCODING, 1),
            choice(51, "COLOR_RANGE", DEFAULT_COLOR_RANGE, 0),
        ],
    )
    .expect("learn");
    let mut request = AtomicRequest::new();
    assert_eq!(emit_color_props(&mut request, &map, 31), 2);
    assert_eq!(request.writes, vec![write(31, 50, 1), write(31, 51, 0)]);
    map.note_color_committed(31);
    assert_eq!(emit_color_props(&mut request, &map, 31), 0);
}

#[test]
fn a_colour_property_without_its_default_is_refused() {
    let mut map = PlanePropertyMap::new();
    assert_eq!(
        map.learn_plane(
            31,
            &[
                choice(50, "COLOR_ENCODING", "something else", 1),
                choice(51, "COLOR_RANGE", DEFAULT_COLOR_RANGE, 0),
            ],
        ),
        Err(LearnError::MissingEnumEntry)
    );
    assert!(map.is_empty(), "nothing of the plane is kept");
    assert_eq!(
        map.learn_plane(31, &[choice(50, "COLOR_ENCODING", "something else", 1)]),
        Ok(()),
        "one of the two alone is not asked about"
    );
}

fn modeset() -> Modeset {
    Modeset::learn(
        40,
        60,
        &[property(41, "ACTIVE"), property(42, "MODE_ID")],
        &[property(61, "CRTC_ID")],
        77,
    )
    .expect("modeset")
}

#[test]
fn a_modeset_is_three_writes() {
    let modeset = modeset();
    assert_eq!(modeset.mode_blob(), 77);
    let mut request = AtomicRequest::new();
    assert_eq!(modeset.emit(&mut request), 3);
    assert_eq!(
        request.writes,
        vec![write(40, 42, 77), write(40, 41, 1), write(60, 61, 40)]
    );
    assert_eq!(
        Modeset::learn(40, 60, &[property(41, "ACTIVE")], &[property(61, "CRTC_ID")], 77).err(),
        Some(LearnError::MissingProperty)
    );
}

fn plan(plane_id: u32, id: u64, fb: u64) -> PlanePlan {
    PlanePlan {
        plane_id,
        layer_id: LayerId(id),
        layer: layer(&[(PropTag::FbId, fb), (PropTag::CrtcId, 40)]),
        baseline: None,
    }
}

#[test]
fn a_frame_sets_the_mode_switches_off_and_then_shows() {
    let map = known();
    let mut request = AtomicRequest::new();
    let written = emit_frame(
        &mut request,
        &map,
        &[plan(31, 1, 500)],
        &[32],
        Some(&modeset()),
    );
    assert_eq!(written, 7);
    assert_eq!(
        request.writes[3..],
        [
            write(32, 200, 0),
            write(32, 201, 0),
            write(31, 100, 500),
            write(31, 101, 40)
        ]
    );
}

#[test]
fn a_test_switches_off_every_candidate_it_does_not_try() {
    let map = known();
    let mut committer = DeviceCommitter::new(vec![31, 32], None);
    let request = committer.test_assignment(
        &map,
        &[TriedLayer {
            plane_id: 32,
            layer: layer(&[(PropTag::FbId, 500)]),
        }],
    );
    assert_eq!(committer.commits, 1);
    assert_eq!(
        request.writes,
        vec![
            write(31, 100, 0),
            write(31, 101, 0),
            write(32, 200, 500)
        ]
    );
}

#[test]
fn what_a_commit_answer_means() {
    assert_eq!(test_verdict(&Ok(())), Ok(()));
    assert_eq!(
        test_verdict(&Err(CommitError::NotMaster)),
        Err(TestFailure::NotMaster)
    );
    assert_eq!(
        test_verdict(&Err(CommitError::Other)),
        Err(TestFailure::Rejected)
    );
    assert_eq!(classify(&Ok(())), KernelResult::Applied);
    assert_eq!(
        classify(&Err(CommitError::NotMaster)),
        KernelResult::NotMaster
    );
    assert_eq!(classify(&Err(CommitError::Other)), KernelResult::Rejected);
}

fn fenced(id: u64, fd: i32) -> Acquisition {
    Acquisition::new(
        LayerId(id),
        AcquiredBuffer {
            acquire_fence: Some(SyncFence::from_owned(fd)),
            ..AcquiredBuffer::default()
        },
    )
}

#[test]
fn every_fence_is_armed_or_waited_for() {
    let mut map = known();
    map.learn_plane(31, &[property(5, "FB_ID"), property(6, "IN_FENCE_FD")])
        .expect("learn");
    let build = || FrameBuild {
        acquisitions: vec![fenced(1, 20), fenced(2, 21)],
        plan: vec![plan(31, 1, 500), plan(32, 2, 501)],
        disables: vec![],
        carried: vec![],
        report: CommitReport::default(),
        kind: CommitKind::Real { arms_flip: true },
    };
    let mut real = build();
    let mut request = AtomicRequest::new();
    let waits = arm_acquire_fences(&mut real, &mut request, &map, true);
    assert_eq!(request.writes, vec![write(31, 6, 20)]);
    assert_eq!(waits, vec![21]);
    assert_eq!(real.report().in_fences_armed, 1);
    assert_eq!(real.report().in_fence_cpu_waits, 1);

    let mut test = build();
    let mut request = AtomicRequest::new();
    assert!(arm_acquire_fences(&mut test, &mut request, &map, false).is_empty());
    assert_eq!(request.writes.len(), 1, "a test commit waits for nothing");
}

// Planes and their properties.

#[test]
fn tags_have_names_and_an_order() {
    let all = PropTag::all();
    assert_eq!(all.len(), 16);
    assert_eq!(all[0], PropTag::FbId);
    assert_eq!(PropTag::at(15), PropTag::InFenceFd);
    assert_eq!(PropTag::SrcW.name(), "SRC_W");
    assert!(PropTag::PixelFormat.is_hint());
    assert!(!PropTag::Zpos.is_hint());
}

#[test]
fn a_table_holds_one_value_per_tag() {
    let mut table: TagTable<u64> = layer(&[(PropTag::Alpha, 3)]).properties;
    assert_eq!(table.get(PropTag::Alpha), Some(3));
    table.set(PropTag::Alpha, 4);
    assert_eq!(table.get(PropTag::Alpha), Some(4));
    assert_eq!(table.get(PropTag::FbId), None);
}

#[test]
fn a_negative_position_survives_its_slot() {
    let shown = layer(&[
        (PropTag::CrtcX, u64::from(u32::MAX)),
        (PropTag::CrtcW, 9),
    ]);
    assert_eq!(shown.crtc_rect().x, -1);
    assert_eq!(shown.crtc_rect().w, 9);
}

#[test]
fn a_registry_finds_planes_by_id() {
    let registry = PlaneRegistry::from_capabilities(vec![PlaneCapabilities {
        id: 31,
        possible_crtcs: 0b101,
        plane_type: PlaneType::Primary,
        formats: vec![1, 2],
        ..PlaneCapabilities::default()
    }]);
    let plane = registry.by_id(31).expect("known");
    assert!(plane.compatible_with_crtc(0) && !plane.compatible_with_crtc(1));
    assert!(plane.compatible_with_crtc(2) && !plane.compatible_with_crtc(32));
    assert!(plane.supports_format(2) && !plane.supports_format(3));
    assert!(registry.by_id(32).is_none());
}
