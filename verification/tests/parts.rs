//! The scene's parts: sources, reports, the release ring, lowering and the
//! frame lifecycle.

use drmkit::commit::{fence_action, FenceAction, PlanePropertyMap};
use drmkit::display::{to_16_16, DisplayParams, Rect};
use drmkit::errno::{Errno, EAGAIN, EINVAL};
use drmkit::frame::{AcquireTally, CommitKind, FrameLifecycle, KernelResult};
use drmkit::lower::{lower_layer, LoweringInput};
use drmkit::planes::{Layer as PlaneLayer, LayerId, PropTag};
use drmkit::release::{Acquisition, ReleaseQueue, ReleaseReason, Released, ScenePendingFlip};
use drmkit::report::{CommitReport, LayerPlacement, Placement};
use drmkit::source::{
    AcquiredBuffer, BindingModel, LayerBufferSource, MapAccess, SourceError, SourceFormat,
};
use drmkit::sync::SyncFence;

/// A descriptor that cannot be duplicated.
fn no_copy(_fd: i32) -> Option<i32> {
    None
}

#[derive(Debug, Default)]
struct FakeSource {
    format: SourceFormat,
    /// Returned by the next `acquire`.
    next: Option<Result<AcquiredBuffer, SourceError>>,
    released: Vec<u32>,
    released_with_fence: usize,
    fresh: bool,
}

impl LayerBufferSource for FakeSource {
    fn acquire(&mut self) -> Result<AcquiredBuffer, SourceError> {
        self.next.take().unwrap_or(Err(SourceError::WouldBlock))
    }

    fn release(&mut self, acquired: AcquiredBuffer) {
        self.released.push(acquired.fb_id);
    }

    fn release_with_fence(
        &mut self,
        acquired: AcquiredBuffer,
        _release_fence: Option<SyncFence>,
    ) {
        self.released_with_fence += 1;
        self.release(acquired);
    }

    fn has_fresh_content(&self) -> bool {
        self.fresh
    }

    fn format(&self) -> SourceFormat {
        self.format
    }
}

#[derive(Debug, Default)]
struct MinimalSource;

impl LayerBufferSource for MinimalSource {
    fn acquire(&mut self) -> Result<AcquiredBuffer, SourceError> {
        Ok(AcquiredBuffer {
            fb_id: 7,
            ..AcquiredBuffer::default()
        })
    }

    fn release(&mut self, _acquired: AcquiredBuffer) {}

    fn format(&self) -> SourceFormat {
        SourceFormat::default()
    }
}

#[test]
fn would_block_is_distinct_from_failure() {
    let mut source = FakeSource::default();

    // Nothing queued: the fake reports flow control.
    assert!(matches!(source.acquire(), Err(SourceError::WouldBlock)));

    source.next = Some(Err(SourceError::Failed(Errno { raw: EINVAL })));
    assert!(matches!(source.acquire(), Err(SourceError::Failed(_))));

    source.next = Some(Err(SourceError::Unsupported));
    assert!(matches!(source.acquire(), Err(SourceError::Unsupported)));
}

#[test]
fn a_real_failure_is_not_mistaken_for_flow_control() {
    let failure = SourceError::Failed(Errno { raw: EAGAIN });
    assert!(
        !matches!(failure, SourceError::WouldBlock),
        "an errno that happens to be EAGAIN is still a failure if the source \
         reported it as one -- the variant carries the intent, not the number"
    );
}

#[test]
fn fresh_content_defaults_to_the_safe_answer() {
    assert!(
        MinimalSource.has_fresh_content(),
        "a source that cannot introspect its buffer must report changed, or a \
         real update is silently skipped"
    );

    // A source that *knows* it is idle opts out, which is what enables the
    // whole-commit skip.
    let idle = FakeSource::default();
    assert!(!idle.has_fresh_content());
}

#[test]
fn binding_model_defaults_to_scene_submits_fb_id() {
    assert_eq!(
        MinimalSource.binding_model(),
        BindingModel::SceneSubmitsFbId
    );
    assert_eq!(BindingModel::default(), BindingModel::SceneSubmitsFbId);
}

#[test]
fn release_fence_is_opt_in() {
    assert!(
        !MinimalSource.wants_release_fence(),
        "the scene only requests an OUT_FENCE when a source asks, so this must \
         cost nothing by default"
    );
}

#[test]
fn release_with_fence_forwards_by_default() {
    let mut source = MinimalSource;
    // Compiles and does not panic: the default drops the fence and forwards.
    source.release_with_fence(
        AcquiredBuffer {
            fb_id: 3,
            ..AcquiredBuffer::default()
        },
        None,
    );
}

#[test]
fn release_with_fence_is_overridable() {
    let mut source = FakeSource::default();
    source.release_with_fence(
        AcquiredBuffer {
            fb_id: 5,
            ..AcquiredBuffer::default()
        },
        None,
    );
    assert_eq!(source.released_with_fence, 1);
    assert_eq!(source.released, vec![5]);
}

#[test]
fn composition_escapes_default_to_unsupported() {
    let mut source = MinimalSource;
    assert!(matches!(
        source.map(MapAccess::Read),
        Err(SourceError::Unsupported)
    ));
    assert!(matches!(
        source.export_dma_buf(),
        Err(SourceError::Unsupported)
    ));
}

#[test]
fn driver_binding_hooks_are_inert_by_default() {
    let mut source = MinimalSource;
    assert!(source.bind_to_plane(31).is_ok());
    source.unbind_from_plane(31);
    source.on_session_paused();
}

#[test]
fn moving_an_acquired_buffer_transfers_it_intact() {
    let buffer = AcquiredBuffer {
        fb_id: 42,
        token: 3,
        ..AcquiredBuffer::default()
    };
    let moved = buffer;
    assert_eq!(moved.fb_id, 42);
    assert_eq!(moved.token, 3);
}

#[test]
fn an_acquired_buffer_defaults_to_full_frame_damage() {
    let buffer = AcquiredBuffer::default();
    assert!(
        buffer.damage.is_empty(),
        "empty means full-frame: correct, just not power-optimal"
    );
    assert!(buffer.acquire_fence.is_none());
}

#[test]
fn commit_report_accounting_balances() {
    let report = CommitReport {
        layers_total: 5,
        layers_assigned: 2,
        layers_composited: 1,
        layers_unassigned: 1,
        layers_skipped_no_frame: 1,
        ..CommitReport::default()
    };
    assert!(report.accounting_balances());

    let unbalanced = CommitReport {
        layers_total: 5,
        layers_assigned: 2,
        ..CommitReport::default()
    };
    assert!(
        !unbalanced.accounting_balances(),
        "a layer counted nowhere must show up as an imbalance"
    );
}

#[test]
fn unhonored_pins_do_not_affect_the_accounting() {
    let report = CommitReport {
        layers_total: 1,
        layers_assigned: 1,
        pin_requests_unhonored: 1,
        ..CommitReport::default()
    };
    assert!(report.accounting_balances());
}

#[test]
fn fast_path_implies_no_test_commits() {
    let good = CommitReport {
        fb_delta_fast_path: true,
        test_commits_issued: 0,
        ..CommitReport::default()
    };
    assert!(good.fast_path_consistent());

    let contradictory = CommitReport {
        fb_delta_fast_path: true,
        test_commits_issued: 1,
        ..CommitReport::default()
    };
    assert!(!contradictory.fast_path_consistent());

    // Not taking the fast path says nothing about the count.
    let warm = CommitReport {
        fb_delta_fast_path: false,
        test_commits_issued: 1,
        ..CommitReport::default()
    };
    assert!(warm.fast_path_consistent());
}

#[test]
fn an_empty_report_is_balanced_and_consistent() {
    let report = CommitReport::default();
    assert!(report.accounting_balances());
    assert!(report.fast_path_consistent());
    assert!(report.placements.is_empty());
    assert!(!report.fb_delta_fast_path);
}

#[test]
fn placements_describe_each_layer_outcome() {
    let report = CommitReport {
        layers_total: 2,
        layers_assigned: 1,
        layers_unassigned: 1,
        placements: vec![
            LayerPlacement {
                layer: LayerId(1),
                placement: Placement::AssignedToPlane,
                plane_id: Some(31),
                plane_rotation_bits: 0b0001,
            },
            LayerPlacement {
                layer: LayerId(2),
                placement: Placement::Unassigned,
                plane_id: None,
                plane_rotation_bits: 0,
            },
        ],
        ..CommitReport::default()
    };

    assert!(report.accounting_balances());
    assert_eq!(report.placements.len(), 2);
    assert_eq!(
        report.placements[1].plane_id, None,
        "unassigned has no plane"
    );
    assert_eq!(
        report.placements[1].plane_rotation_bits, 0,
        "and no rotation mask to report"
    );
}

fn acquisition(layer: u64, fb_id: u32) -> Acquisition {
    Acquisition::new(
        LayerId(layer),
        AcquiredBuffer {
            fb_id,
            ..AcquiredBuffer::default()
        },
    )
}

fn released_fbs(released: &Released) -> Vec<u32> {
    released
        .acquisitions
        .iter()
        .map(|a| a.buffer.fb_id)
        .collect()
}

#[test]
fn release_is_deferred_two_commits_deep() {
    let mut queue = ReleaseQueue::new();

    let first = queue.commit_succeeded(vec![acquisition(1, 100)], None, |_| false, no_copy);
    assert!(
        first.is_empty(),
        "frame 1's buffer is being scanned out; releasing it here is the tear"
    );

    let second = queue.commit_succeeded(vec![acquisition(1, 200)], None, |_| false, no_copy);
    assert!(
        second.is_empty(),
        "frame 1's buffer only leaves the screen when frame 2's flip completes, \
         which the *next* commit observes"
    );

    let third = queue.commit_succeeded(vec![acquisition(1, 300)], None, |_| false, no_copy);
    assert_eq!(
        released_fbs(&third),
        vec![100],
        "two commits deep: frame 1 retires now"
    );
    assert_eq!(third.reason, ReleaseReason::Retired);

    let fourth = queue.commit_succeeded(vec![acquisition(1, 400)], None, |_| false, no_copy);
    assert_eq!(released_fbs(&fourth), vec![200], "then frame 2, in order");
}

#[test]
fn the_ring_holds_exactly_two_generations() {
    let mut queue = ReleaseQueue::new();
    assert!(queue.is_empty());

    for frame in 0..20u32 {
        queue.commit_succeeded(vec![acquisition(1, frame)], None, |_| false, no_copy);
        assert!(
            queue.in_flight() <= 2,
            "frame {frame}: {} buffers in flight, expected at most 2",
            queue.in_flight()
        );
    }
    assert_eq!(queue.in_flight(), 2, "steady state holds N-1 and N-2");
}

#[test]
fn a_failed_commit_releases_its_own_acquisitions_at_once() {
    let mut queue = ReleaseQueue::new();
    queue.commit_succeeded(vec![acquisition(1, 100)], None, |_| false, no_copy);

    let failed = queue.commit_failed(vec![acquisition(1, 200)]);

    assert_eq!(
        released_fbs(&failed),
        vec![200],
        "this frame's buffer comes straight back"
    );
    assert_eq!(failed.reason, ReleaseReason::CommitFailed);
}

#[test]
fn a_failed_commit_leaves_the_in_flight_generations_alone() {
    let mut queue = ReleaseQueue::new();
    queue.commit_succeeded(vec![acquisition(1, 100)], None, |_| false, no_copy);
    queue.commit_succeeded(vec![acquisition(1, 200)], None, |_| false, no_copy);
    let before = queue.in_flight();

    queue.commit_failed(vec![acquisition(1, 300)]);
    assert_eq!(queue.in_flight(), before, "nothing on screen changed");

    // And the ring is unbroken: the next success still retires frame 1.
    let next = queue.commit_succeeded(vec![acquisition(1, 400)], None, |_| false, no_copy);
    assert_eq!(
        released_fbs(&next),
        vec![100],
        "a rejected commit must not skip a generation"
    );
}

#[test]
fn a_test_commit_releases_immediately_and_is_distinguishable() {
    let mut queue = ReleaseQueue::new();
    let released = queue.test_committed(vec![acquisition(1, 100)]);

    assert_eq!(released_fbs(&released), vec![100]);
    assert_eq!(released.reason, ReleaseReason::TestOnly);
    assert!(queue.is_empty(), "a test commit holds nothing in flight");
}

#[test]
fn draining_returns_every_held_buffer_oldest_first() {
    let mut queue = ReleaseQueue::new();
    queue.commit_succeeded(vec![acquisition(1, 100)], None, |_| false, no_copy);
    queue.commit_succeeded(vec![acquisition(1, 200)], None, |_| false, no_copy);
    assert_eq!(queue.in_flight(), 2);

    let drained = queue.drain();

    assert_eq!(
        released_fbs(&drained),
        vec![100, 200],
        "oldest first, matching the order a running scene would have used"
    );
    assert_eq!(drained.reason, ReleaseReason::Drained);
    assert!(queue.is_empty(), "draining leaves nothing behind");
}

#[test]
fn draining_an_empty_queue_is_harmless() {
    let mut queue = ReleaseQueue::new();
    let drained = queue.drain();
    assert!(drained.is_empty());
    assert_eq!(drained.len(), 0);
}

#[test]
fn every_layers_buffer_retires_together() {
    let mut queue = ReleaseQueue::new();

    queue.commit_succeeded(vec![acquisition(1, 100), acquisition(2, 101)], None, |_| false, no_copy);
    queue.commit_succeeded(vec![acquisition(1, 200), acquisition(2, 201)], None, |_| false, no_copy);
    let third =
        queue.commit_succeeded(vec![acquisition(1, 300), acquisition(2, 301)], None, |_| false, no_copy);

    let mut fbs = released_fbs(&third);
    fbs.sort_unstable();
    assert_eq!(
        fbs,
        vec![100, 101],
        "both layers' frame-1 buffers retire together"
    );
}

#[test]
fn a_skipped_layer_does_not_break_the_rotation() {
    let mut queue = ReleaseQueue::new();

    queue.commit_succeeded(vec![acquisition(1, 100), acquisition(2, 101)], None, |_| false, no_copy);
    // Layer 2 had no frame this vblank.
    queue.commit_succeeded(vec![acquisition(1, 200)], None, |_| false, no_copy);
    let third = queue.commit_succeeded(vec![acquisition(1, 300)], None, |_| false, no_copy);

    let mut fbs = released_fbs(&third);
    fbs.sort_unstable();
    assert_eq!(fbs, vec![100, 101]);

    let fourth = queue.commit_succeeded(vec![acquisition(1, 400)], None, |_| false, no_copy);
    assert_eq!(
        released_fbs(&fourth),
        vec![200],
        "only layer 1 contributed to frame 2"
    );
}

#[test]
fn the_release_fence_is_stamped_only_where_wanted() {
    let mut queue = ReleaseQueue::new();
    queue.commit_succeeded(
        vec![acquisition(1, 100), acquisition(2, 101)],
        None,
        |_| false,
        no_copy,
    );

    // The commit's out-fence, and a duplication that gives 40 on.
    let fence = SyncFence::from_owned(9);

    // Only layer 1 wants it.
    queue.commit_succeeded(
        vec![acquisition(1, 200)],
        Some(&fence),
        |layer| layer == LayerId(1),
        |fd| Some(fd + 31),
    );

    // Frame 1's buffers retire next commit; check what came back stamped.
    let retired = queue.commit_succeeded(vec![acquisition(1, 300)], None, |_| false, no_copy);
    let stamped: Vec<(u32, bool)> = retired
        .acquisitions
        .iter()
        .map(|a| (a.buffer.fb_id, a.release_fence.is_some()))
        .collect();

    assert_eq!(stamped.len(), 2);
    assert!(
        stamped.contains(&(100, true)),
        "layer 1 opted in and must get the fence: {stamped:?}"
    );
    assert!(
        stamped.contains(&(101, false)),
        "layer 2 did not opt in and must not: {stamped:?}"
    );
    assert_eq!(
        retired.acquisitions[0].release_fence,
        Some(SyncFence::from_owned(40)),
        "a descriptor of its own"
    );
}

#[test]
fn no_out_fence_means_nothing_is_stamped() {
    let mut queue = ReleaseQueue::new();
    queue.commit_succeeded(vec![acquisition(1, 100)], None, |_| true, no_copy);
    queue.commit_succeeded(vec![acquisition(1, 200)], None, |_| true, no_copy);

    let retired = queue.commit_succeeded(vec![acquisition(1, 300)], None, |_| true, no_copy);
    assert!(
        retired
            .acquisitions
            .iter()
            .all(|a| a.release_fence.is_none()),
        "a CRTC without OUT_FENCE_PTR stamps nothing"
    );
}

#[test]
fn pending_flip_tracks_whether_teardown_is_safe() {
    let mut pending = ScenePendingFlip::new();
    assert!(!pending.is_armed(), "nothing committed yet");

    pending.arm();
    assert!(
        pending.is_armed(),
        "a commit that armed PAGE_FLIP_EVENT still references its framebuffer"
    );

    pending.landed();
    assert!(!pending.is_armed(), "once dispatched, teardown is safe");
}

fn lowering_input() -> LoweringInput {
    LoweringInput {
        display: DisplayParams {
            dst_rect: Rect {
                x: 10,
                y: 20,
                w: 640,
                h: 480,
            },
            ..DisplayParams::default()
        },
        format: SourceFormat {
            fourcc: 0x3234_5258, // XR24
            modifier: 0,
            width: 1920,
            height: 1080,
        },
        binding: BindingModel::SceneSubmitsFbId,
        fb_id: 42,
        crtc_id: 7,
        default_zpos: None,
    }
}

#[test]
fn lowering_writes_the_destination_rectangle_in_whole_pixels() {
    let mut plane_layer = PlaneLayer::new();
    lower_layer(&lowering_input(), &mut plane_layer);

    assert_eq!(plane_layer.property(PropTag::CrtcX), Some(10));
    assert_eq!(plane_layer.property(PropTag::CrtcY), Some(20));
    assert_eq!(plane_layer.property(PropTag::CrtcW), Some(640));
    assert_eq!(plane_layer.property(PropTag::CrtcH), Some(480));
}

#[test]
fn an_unset_source_rectangle_resolves_to_the_buffer_extent() {
    let mut plane_layer = PlaneLayer::new();
    lower_layer(&lowering_input(), &mut plane_layer);

    assert_eq!(
        plane_layer.property(PropTag::SrcW),
        Some(to_16_16(1920)),
        "an unset source width must become the buffer width, never 0"
    );
    assert_eq!(plane_layer.property(PropTag::SrcH), Some(to_16_16(1080)));
    assert_ne!(plane_layer.property(PropTag::SrcW), Some(0));
}

#[test]
fn an_explicit_source_rectangle_is_kept_and_converted_to_fixed_point() {
    let mut input = lowering_input();
    input.display.src_rect = Rect {
        x: 8,
        y: 16,
        w: 320,
        h: 240,
    };

    let mut plane_layer = PlaneLayer::new();
    lower_layer(&input, &mut plane_layer);

    assert_eq!(plane_layer.property(PropTag::SrcX), Some(to_16_16(8)));
    assert_eq!(plane_layer.property(PropTag::SrcY), Some(to_16_16(16)));
    assert_eq!(plane_layer.property(PropTag::SrcW), Some(320 << 16));
    assert_eq!(plane_layer.property(PropTag::SrcH), Some(240 << 16));
}

#[test]
fn crtc_id_is_always_written() {
    let mut plane_layer = PlaneLayer::new();
    lower_layer(&lowering_input(), &mut plane_layer);
    assert_eq!(plane_layer.property(PropTag::CrtcId), Some(7));

    // Even for a driver-owned binding, which skips only FB_ID.
    let mut input = lowering_input();
    input.binding = BindingModel::DriverOwnsBinding;
    let mut driver_owned = PlaneLayer::new();
    lower_layer(&input, &mut driver_owned);
    assert_eq!(driver_owned.property(PropTag::CrtcId), Some(7));
}

#[test]
fn a_driver_owned_binding_skips_fb_id_and_is_marked_external() {
    let mut input = lowering_input();
    input.binding = BindingModel::DriverOwnsBinding;

    let mut plane_layer = PlaneLayer::new();
    lower_layer(&input, &mut plane_layer);

    assert_eq!(
        plane_layer.property(PropTag::FbId),
        None,
        "the scene must not write FB_ID for a driver-owned binding"
    );
    assert!(plane_layer.is_externally_bound());
}

#[test]
fn a_scene_owned_binding_writes_fb_id_and_is_not_external() {
    let mut plane_layer = PlaneLayer::new();
    lower_layer(&lowering_input(), &mut plane_layer);

    assert_eq!(plane_layer.property(PropTag::FbId), Some(42));
    assert!(!plane_layer.is_externally_bound());
}

#[test]
fn format_and_modifier_reach_the_property_bag() {
    let mut input = lowering_input();
    input.format.modifier = 0x0800_0000_0000_0001; // AFBC(16x16)

    let mut plane_layer = PlaneLayer::new();
    lower_layer(&input, &mut plane_layer);

    assert_eq!(plane_layer.format(), Some(0x3234_5258));
    assert_eq!(plane_layer.modifier(), 0x0800_0000_0000_0001);
}

#[test]
fn zpos_is_left_unwritten_unless_requested() {
    let mut plane_layer = PlaneLayer::new();
    lower_layer(&lowering_input(), &mut plane_layer);
    assert_eq!(
        plane_layer.property(PropTag::Zpos),
        None,
        "an unrequested zpos must not be written as 0"
    );

    let mut explicit = lowering_input();
    explicit.display.zpos = Some(3);
    let mut with_zpos = PlaneLayer::new();
    lower_layer(&explicit, &mut with_zpos);
    assert_eq!(with_zpos.property(PropTag::Zpos), Some(3));
}

#[test]
fn the_default_zpos_hint_only_applies_when_unset() {
    let mut hinted = lowering_input();
    hinted.default_zpos = Some(1);
    let mut plane_layer = PlaneLayer::new();
    lower_layer(&hinted, &mut plane_layer);
    assert_eq!(plane_layer.property(PropTag::Zpos), Some(1));

    // An explicit request wins over the hint.
    hinted.display.zpos = Some(4);
    let mut explicit = PlaneLayer::new();
    lower_layer(&hinted, &mut explicit);
    assert_eq!(explicit.property(PropTag::Zpos), Some(4));
}

#[test]
fn rotation_is_written_only_when_non_zero() {
    let mut plane_layer = PlaneLayer::new();
    lower_layer(&lowering_input(), &mut plane_layer);
    assert_eq!(plane_layer.property(PropTag::Rotation), None);

    let mut rotated = lowering_input();
    rotated.display.rotation = 0b0010;
    let mut with_rotation = PlaneLayer::new();
    lower_layer(&rotated, &mut with_rotation);
    assert_eq!(with_rotation.property(PropTag::Rotation), Some(0b0010));
}

#[test]
fn alpha_is_written_only_when_requested() {
    let mut plane_layer = PlaneLayer::new();
    lower_layer(&lowering_input(), &mut plane_layer);
    assert_eq!(plane_layer.property(PropTag::Alpha), None);

    let mut translucent = lowering_input();
    translucent.display.alpha = Some(0x8000);
    let mut with_alpha = PlaneLayer::new();
    lower_layer(&translucent, &mut with_alpha);
    assert_eq!(with_alpha.property(PropTag::Alpha), Some(0x8000));
}

#[test]
fn a_negative_destination_position_round_trips() {
    let mut input = lowering_input();
    input.display.dst_rect.x = -64;
    input.display.dst_rect.y = -32;

    let mut plane_layer = PlaneLayer::new();
    lower_layer(&input, &mut plane_layer);

    let rect = plane_layer.crtc_rect();
    assert_eq!(rect.x, -64, "a plane may extend off the left edge");
    assert_eq!(rect.y, -32);
}

#[test]
fn a_one_to_one_layer_does_not_read_as_scaled() {
    let mut input = lowering_input();
    input.display.dst_rect = Rect {
        x: 0,
        y: 0,
        w: 1920,
        h: 1080,
    };

    let mut plane_layer = PlaneLayer::new();
    lower_layer(&input, &mut plane_layer);
    assert!(
        !plane_layer.requires_scaling(),
        "a full-extent source into a matching destination is 1:1"
    );

    // And a genuine downscale does.
    input.display.dst_rect.w = 1280;
    let mut scaled = PlaneLayer::new();
    lower_layer(&input, &mut scaled);
    assert!(scaled.requires_scaling());
}

fn real_commit() -> CommitKind {
    CommitKind::Real { arms_flip: true }
}

#[test]
fn a_successful_commit_rotates_and_arms_the_flip() {
    let mut lifecycle = FrameLifecycle::new();

    let first = lifecycle.finalize(
        real_commit(),
        KernelResult::Applied,
        vec![acquisition(1, 100)],
        CommitReport::default(),
        None,
        |_| false,
        no_copy,
    );
    assert!(first.released.is_empty(), "nothing has left the screen yet");
    assert!(lifecycle.has_pending_flip(), "a real commit armed a flip");
    assert!(!first.suspended);

    lifecycle.finalize(
        real_commit(),
        KernelResult::Applied,
        vec![acquisition(1, 200)],
        CommitReport::default(),
        None,
        |_| false,
        no_copy,
    );
    let third = lifecycle.finalize(
        real_commit(),
        KernelResult::Applied,
        vec![acquisition(1, 300)],
        CommitReport::default(),
        None,
        |_| false,
        no_copy,
    );
    assert_eq!(released_fbs(&third.released), vec![100]);
}

#[test]
fn a_commit_without_a_flip_event_leaves_no_pending_flip() {
    let mut lifecycle = FrameLifecycle::new();
    lifecycle.finalize(
        CommitKind::Real { arms_flip: false },
        KernelResult::Applied,
        vec![acquisition(1, 100)],
        CommitReport::default(),
        None,
        |_| false,
        no_copy,
    );
    assert!(!lifecycle.has_pending_flip());
}

#[test]
fn an_ordinary_rejection_releases_but_does_not_suspend() {
    let mut lifecycle = FrameLifecycle::new();
    lifecycle.finalize(
        real_commit(),
        KernelResult::Applied,
        vec![acquisition(1, 100)],
        CommitReport::default(),
        None,
        |_| false,
        no_copy,
    );

    let rejected = lifecycle.finalize(
        real_commit(),
        KernelResult::Rejected,
        vec![acquisition(1, 200)],
        CommitReport::default(),
        None,
        |_| false,
        no_copy,
    );

    assert_eq!(released_fbs(&rejected.released), vec![200]);
    assert_eq!(rejected.released.reason, ReleaseReason::CommitFailed);
    assert!(
        !rejected.suspended,
        "a non-EACCES failure must not suspend the scene -- the frame heals"
    );
    assert!(!lifecycle.is_suspended());
}

#[test]
fn lost_master_suspends_the_scene() {
    let mut lifecycle = FrameLifecycle::new();

    let outcome = lifecycle.finalize(
        real_commit(),
        KernelResult::NotMaster,
        vec![acquisition(1, 100)],
        CommitReport::default(),
        None,
        |_| false,
        no_copy,
    );

    assert!(outcome.suspended);
    assert!(lifecycle.is_suspended());
    assert_eq!(
        released_fbs(&outcome.released),
        vec![100],
        "the buffers still come straight back"
    );

    lifecycle.resume();
    assert!(!lifecycle.is_suspended(), "a session resume lifts it");
}

#[test]
fn a_rejected_fast_path_frame_invalidates_the_cached_allocation() {
    let mut lifecycle = FrameLifecycle::new();
    let report = CommitReport {
        fb_delta_fast_path: true,
        test_commits_issued: 0,
        ..CommitReport::default()
    };

    let outcome = lifecycle.finalize(
        real_commit(),
        KernelResult::Rejected,
        vec![acquisition(1, 100)],
        report,
        None,
        |_| false,
        no_copy,
    );

    assert!(
        outcome.invalidate_allocation,
        "a fast-path frame the kernel refused must drop the cache"
    );
    assert!(
        !outcome.report.fb_delta_fast_path,
        "and the report must stop claiming a fast path that did not hold"
    );
    assert!(lifecycle.has_warned_fast_path_reject());
    assert!(!outcome.suspended, "it is still a recoverable rejection");
}

#[test]
fn an_ordinary_rejection_does_not_invalidate_the_cache() {
    let mut lifecycle = FrameLifecycle::new();
    let report = CommitReport {
        fb_delta_fast_path: false,
        test_commits_issued: 1,
        ..CommitReport::default()
    };

    let outcome = lifecycle.finalize(
        real_commit(),
        KernelResult::Rejected,
        vec![acquisition(1, 100)],
        report,
        None,
        |_| false,
        no_copy,
    );

    assert!(!outcome.invalidate_allocation);
    assert!(!lifecycle.has_warned_fast_path_reject());
}

#[test]
fn a_test_commit_leaves_scene_state_untouched() {
    let mut lifecycle = FrameLifecycle::new();
    lifecycle.finalize(
        real_commit(),
        KernelResult::Applied,
        vec![acquisition(1, 100)],
        CommitReport::default(),
        None,
        |_| false,
        no_copy,
    );
    let in_flight = lifecycle.buffers_in_flight();
    lifecycle.flip_landed();

    let outcome = lifecycle.finalize(
        CommitKind::Test,
        KernelResult::Applied,
        vec![acquisition(1, 200)],
        CommitReport::default(),
        None,
        |_| false,
        no_copy,
    );

    assert_eq!(released_fbs(&outcome.released), vec![200]);
    assert_eq!(outcome.released.reason, ReleaseReason::TestOnly);
    assert_eq!(
        lifecycle.buffers_in_flight(),
        in_flight,
        "a test applied nothing, so nothing rotated"
    );
    assert!(!lifecycle.has_pending_flip(), "and armed no flip");
}

#[test]
fn a_failed_test_commit_is_still_just_a_test() {
    let mut lifecycle = FrameLifecycle::new();
    let outcome = lifecycle.finalize(
        CommitKind::Test,
        KernelResult::NotMaster,
        vec![acquisition(1, 100)],
        CommitReport::default(),
        None,
        |_| false,
        no_copy,
    );

    assert_eq!(outcome.released.reason, ReleaseReason::TestOnly);
    assert!(
        !outcome.suspended,
        "a probe that could not run is not a reason to stop the scene"
    );
}

#[test]
fn draining_does_not_land_the_flip() {
    let mut lifecycle = FrameLifecycle::new();
    lifecycle.finalize(
        real_commit(),
        KernelResult::Applied,
        vec![acquisition(1, 100)],
        CommitReport::default(),
        None,
        |_| false,
        no_copy,
    );
    assert!(lifecycle.has_pending_flip());

    let drained = lifecycle.drain();
    assert_eq!(drained.reason, ReleaseReason::Drained);
    assert_eq!(lifecycle.buffers_in_flight(), 0);
    assert!(
        lifecycle.has_pending_flip(),
        "draining returns buffers; it does not wait on the kernel, so the flip \
         is still outstanding and teardown is still unsafe"
    );

    lifecycle.flip_landed();
    assert!(!lifecycle.has_pending_flip());
}

#[test]
fn the_acquire_tally_separates_skips_from_acquisitions() {
    let mut tally = AcquireTally::default();

    assert!(tally.record(true));
    assert!(!tally.record(false));
    assert!(tally.record(true));

    assert_eq!(tally.acquired, 2);
    assert_eq!(tally.skipped_no_frame, 1);
    assert_eq!(
        tally.considered(),
        3,
        "every layer is accounted for exactly once"
    );
}

#[test]
fn skipped_layers_keep_the_report_balanced() {
    let mut tally = AcquireTally::default();
    tally.record(true);
    tally.record(false);
    tally.record(false);

    let report = CommitReport {
        layers_total: tally.considered(),
        layers_assigned: tally.acquired,
        layers_skipped_no_frame: tally.skipped_no_frame,
        ..CommitReport::default()
    };
    assert!(
        report.accounting_balances(),
        "a skipped layer must be counted somewhere, or the invariant breaks"
    );
}

#[test]
fn a_plane_that_takes_a_fence_is_armed_with_it() {
    assert_eq!(
        fence_action(Some(77)),
        FenceAction::Arm { property_id: 77 },
    );
}

#[test]
fn a_plane_without_the_property_falls_back_to_a_cpu_wait() {
    assert_eq!(fence_action(None), FenceAction::CpuWait);
}

#[test]
fn a_canvas_zpos_above_the_plane_range_is_clamped_not_sent() {
    let mut map = PlanePropertyMap::new();
    map.zpos_range.insert(7, (1, 17));

    assert_eq!(
        map.clamp_zpos(7, 19),
        17,
        "above the range clamps to the top"
    );
    assert_eq!(
        map.clamp_zpos(7, 0),
        1,
        "below the range clamps to the bottom"
    );
    assert_eq!(map.clamp_zpos(7, 9), 9, "inside the range is left alone");
    assert_eq!(
        map.clamp_zpos(7, 17),
        17,
        "the top of the range is inside it"
    );

    // A plane that advertises no range is not second-guessed: the value goes
    // as-is and the kernel decides, which is what happens on vkms.
    assert_eq!(
        map.clamp_zpos(8, 19),
        19,
        "no known range means no clamping"
    );
}
