//! A scene from end to end, with no device: where layers are placed is decided
//! by a stand-in, and the kernel's answer to a commit is a parameter.

use std::cell::{Cell, RefCell};
use std::rc::Rc;

use drmkit::display::{DisplayParams, Rect};
use drmkit::draft::{FrameDraft, LoweredLayer};
use drmkit::errno::{Errno, EIO};
use drmkit::fourcc;
use drmkit::frame::{CommitKind, KernelResult};
use drmkit::planes::{
    Allocation, Assignment, ContentType, LayerId, PlaneCapabilities, PlaneRegistry, PlaneType,
    PropTag, TestFailure,
};
use drmkit::plan::FrameBuild;
use drmkit::scene::{LayerHandle, LayerScene, SceneError};
use drmkit::source::{AcquiredBuffer, LayerBufferSource, SourceError, SourceFormat};

fn registry() -> PlaneRegistry {
    PlaneRegistry::from_capabilities(vec![
        PlaneCapabilities {
            id: 31,
            possible_crtcs: 0b1,
            plane_type: PlaneType::Primary,
            formats: vec![fourcc::XRGB8888],
            supports_scaling: true,
            ..PlaneCapabilities::default()
        },
        PlaneCapabilities {
            id: 32,
            possible_crtcs: 0b1,
            plane_type: PlaneType::Overlay,
            formats: vec![fourcc::XRGB8888],
            supports_scaling: true,
            ..PlaneCapabilities::default()
        },
    ])
}

#[derive(Debug, Default)]
struct SourceLog {
    acquired: usize,
    released: Vec<u32>,
}

struct TestSource {
    log: Rc<RefCell<SourceLog>>,
    /// Framebuffer id handed out next.
    next_fb: u32,
    /// Return `WouldBlock` instead of a buffer.
    starved: bool,
    /// Fail for a real reason.
    fails: bool,
    /// Starve on demand, after the source has been handed to the scene.
    ///
        /// `starved` is fixed at construction, which suits a source that never
    /// produces. A layer that starves *after* putting a frame up is a
    /// different case, and the interesting one: it has something to hold.
    toggle: Rc<Cell<bool>>,
}

impl TestSource {
    fn new(log: &Rc<RefCell<SourceLog>>) -> Self {
        Self {
            log: Rc::clone(log),
            next_fb: 100,
            starved: false,
            fails: false,
            toggle: Rc::new(Cell::new(false)),
        }
    }

    /// A handle to this source's starve switch, to keep before boxing it.
    fn starve_switch(&self) -> Rc<Cell<bool>> {
        Rc::clone(&self.toggle)
    }
}

impl LayerBufferSource for TestSource {
    fn acquire(&mut self) -> Result<AcquiredBuffer, SourceError> {
        if self.fails {
            return Err(SourceError::Failed(Errno { raw: EIO }));
        }
        if self.starved || self.toggle.get() {
            return Err(SourceError::WouldBlock);
        }
        self.log.borrow_mut().acquired += 1;
        let fb_id = self.next_fb;
        self.next_fb += 1;
        Ok(AcquiredBuffer {
            fb_id,
            ..AcquiredBuffer::default()
        })
    }

    fn release(&mut self, acquired: AcquiredBuffer) {
        self.log.borrow_mut().released.push(acquired.fb_id);
    }

    fn format(&self) -> SourceFormat {
        SourceFormat {
            fourcc: fourcc::XRGB8888,
            modifier: 0,
            width: 1920,
            height: 1080,
        }
    }
}

/// Puts layers on planes in order, and asks a test commit about every new
/// configuration. What the kernel last took is reused as it is.
#[derive(Debug, Default)]
struct Accepting {
    calls: usize,
    placed: Vec<(u32, LoweredLayer)>,
}

/// Whether two lowered layers differ in nothing but their framebuffer.
fn same_but_for_the_buffer(a: &LoweredLayer, b: &LoweredLayer) -> bool {
    PropTag::all()
        .iter()
        .all(|tag| *tag == PropTag::FbId || a.layer.property(*tag) == b.layer.property(*tag))
}

impl Accepting {
    fn place(&mut self, draft: &FrameDraft, registry: &PlaneRegistry) -> Allocation {
        self.placed
            .retain(|(_, lowered)| !draft.departed.contains(&lowered.id));
        if draft.reset_placement {
            self.placed.clear();
        }
        let known = |lowered: &LoweredLayer| {
            self.placed
                .iter()
                .find(|(_, was)| was.id == lowered.id && same_but_for_the_buffer(was, lowered))
                .map(|(plane, _)| *plane)
        };
        let reused: Vec<Option<u32>> = draft.lowered.iter().map(known).collect();
        let steady = reused.iter().all(Option::is_some);
        let planes: Vec<u32> = if steady {
            reused.into_iter().flatten().collect()
        } else {
            self.calls += 1;
            registry.all().iter().map(|plane| plane.id).collect()
        };
        let entries: Vec<(u32, LayerId)> = planes
            .iter()
            .copied()
            .zip(draft.lowered.iter().map(|lowered| lowered.id))
            .collect();
        self.placed = planes
            .iter()
            .copied()
            .zip(draft.lowered.iter().copied())
            .collect();
        Allocation {
            assignment: Assignment { entries },
            composited: Vec::new(),
            test_commits_issued: usize::from(!steady),
            fb_delta_fast_path: steady,
            budget_exhausted: false,
        }
    }
}

/// Draft, place and build a frame.
fn build_frame(
    scene: &mut LayerScene<TestSource>,
    registry: &PlaneRegistry,
    kind: CommitKind,
    committer: &mut Accepting,
) -> Result<FrameBuild, SceneError> {
    let draft = scene.draft_frame()?;
    let placed = committer.place(&draft, registry);
    let candidates: Vec<u32> = registry.all().iter().map(|plane| plane.id).collect();
    scene.build_frame(draft, Ok(placed), registry, &candidates, kind, None)
}

fn full_screen() -> DisplayParams {
    DisplayParams {
        dst_rect: Rect {
            x: 0,
            y: 0,
            w: 1920,
            h: 1080,
        },
        ..DisplayParams::default()
    }
}

fn real_commit() -> CommitKind {
    CommitKind::Real { arms_flip: true }
}

#[test]
fn a_layer_is_acquired_lowered_placed_and_released() {
    let log = Rc::new(RefCell::new(SourceLog::default()));
    let mut scene = LayerScene::new(1);
    let handle = scene.add_layer(TestSource::new(&log));
    scene
        .layer_mut(handle)
        .expect("layer")
        .set_display(full_screen());

    let registry = registry();
    let mut committer = Accepting::default();

    // Frame 1.
    let build = build_frame(&mut scene, &registry, real_commit(), &mut committer)
        .expect("build");
    assert_eq!(build.held(), 1, "the source contributed a buffer");
    let report = scene.finalize_frame(build, KernelResult::Applied);

    assert_eq!(report.layers_total, 1);
    assert_eq!(report.layers_assigned, 1, "one plane, one layer");
    assert_eq!(report.layers_skipped_no_frame, 0);
    assert!(report.accounting_balances());
    assert_eq!(log.borrow().acquired, 1);
    assert!(
        log.borrow().released.is_empty(),
        "the buffer is on screen, not back yet"
    );
    assert!(scene.has_pending_flip());

    // Frames 2 and 3: frame 1's buffer comes back on the third.
    scene.flip_landed();
    for _ in 0..2 {
        let build = build_frame(&mut scene, &registry, real_commit(), &mut committer)
            .expect("build");
        scene.finalize_frame(build, KernelResult::Applied);
        scene.flip_landed();
    }
    assert_eq!(
        log.borrow().released,
        vec![100],
        "released two commits deep, in order"
    );

    scene.drain();
}

#[test]
fn a_starved_source_is_skipped_not_failed() {
    let live_log = Rc::new(RefCell::new(SourceLog::default()));
    let starved_log = Rc::new(RefCell::new(SourceLog::default()));

    let mut scene = LayerScene::new(1);
    let live = scene.add_layer(TestSource::new(&live_log));
    let mut starved_source = TestSource::new(&starved_log);
    starved_source.starved = true;
    scene.add_layer(starved_source);

    scene
        .layer_mut(live)
        .expect("layer")
        .set_display(full_screen());

    let mut committer = Accepting::default();
    let build = build_frame(&mut scene, &registry(), real_commit(), &mut committer)
        .expect("a starved source must not abort the build");
    let report = scene.finalize_frame(build, KernelResult::Applied);

    assert_eq!(report.layers_total, 2);
    assert_eq!(report.layers_skipped_no_frame, 1);
    assert_eq!(report.layers_assigned, 1);
    assert!(report.accounting_balances());
    assert_eq!(starved_log.borrow().acquired, 0);

    scene.flip_landed();
    scene.drain();
}

#[test]
fn a_failing_source_aborts_the_build_and_returns_what_was_taken() {
    let good_log = Rc::new(RefCell::new(SourceLog::default()));
    let mut scene = LayerScene::new(1);
    scene.add_layer(TestSource::new(&good_log));
    let mut failing = TestSource::new(&Rc::new(RefCell::new(SourceLog::default())));
    failing.fails = true;
    scene.add_layer(failing);

    let mut committer = Accepting::default();
    let result = build_frame(&mut scene, &registry(), real_commit(), &mut committer);

    assert!(
        matches!(result, Err(SceneError::Source(SourceError::Failed(_)))),
        "a real source failure must surface as such, not as a skip: {result:?}"
    );
    assert_eq!(
        good_log.borrow().released,
        vec![100],
        "the buffer taken before the failure must not be stranded"
    );
}

#[test]
fn a_rejected_commit_returns_buffers_and_keeps_the_scene_running() {
    let log = Rc::new(RefCell::new(SourceLog::default()));
    let mut scene = LayerScene::new(1);
    let handle = scene.add_layer(TestSource::new(&log));
    scene
        .layer_mut(handle)
        .expect("layer")
        .set_display(full_screen());

    let registry = registry();
    let mut committer = Accepting::default();

    let build = build_frame(&mut scene, &registry, real_commit(), &mut committer)
        .expect("build");
    scene.finalize_frame(build, KernelResult::Rejected);

    assert_eq!(
        log.borrow().released,
        vec![100],
        "the rejected frame's buffer comes straight back"
    );
    assert!(!scene.is_suspended(), "a rejection is recoverable");

    // And the scene still commits next frame.
    let build = build_frame(&mut scene, &registry, real_commit(), &mut committer)
        .expect("the scene kept running");
    scene.finalize_frame(build, KernelResult::Applied);
    scene.flip_landed();
    scene.drain();
}

#[test]
fn lost_master_suspends_until_resumed() {
    let log = Rc::new(RefCell::new(SourceLog::default()));
    let mut scene = LayerScene::new(1);
    let handle = scene.add_layer(TestSource::new(&log));
    scene
        .layer_mut(handle)
        .expect("layer")
        .set_display(full_screen());

    let registry = registry();
    let mut committer = Accepting::default();

    let build = build_frame(&mut scene, &registry, real_commit(), &mut committer)
        .expect("build");
    scene.finalize_frame(build, KernelResult::NotMaster);
    assert!(scene.is_suspended());

    assert!(
        matches!(
            build_frame(&mut scene, &registry, real_commit(), &mut committer),
            Err(SceneError::Suspended)
        ),
        "a suspended scene short-circuits with Suspended, not some other error"
    );

    scene.resume();
    let build = build_frame(&mut scene, &registry, real_commit(), &mut committer)
        .expect("resumed");
    scene.finalize_frame(build, KernelResult::Applied);
    scene.flip_landed();
    scene.drain();
}

#[test]
fn a_stale_handle_does_not_address_the_slots_new_occupant() {
    let log = Rc::new(RefCell::new(SourceLog::default()));
    let mut scene = LayerScene::new(1);

    let first = scene.add_layer(TestSource::new(&log));
    assert!(scene.layer(first).is_some());

    assert!(scene.remove_layer(first));
    assert!(scene.layer(first).is_none(), "removed");

    // The slot is recycled by the next add.
    let second = scene.add_layer(TestSource::new(&log));
    assert!(scene.layer(second).is_some());
    assert!(
        scene.layer(first).is_none(),
        "the stale handle must not resolve to the new occupant"
    );
    assert_ne!(
        first.layer_id(),
        second.layer_id(),
        "and their allocator identities must differ, or warm-start state would \
         carry across two unrelated layers"
    );

    assert!(!scene.remove_layer(first), "removing twice is a no-op");
}

#[test]
fn a_removed_layers_source_survives_until_its_buffers_return() {
    let log = Rc::new(RefCell::new(SourceLog::default()));
    let mut scene = LayerScene::new(1);
    let handle = scene.add_layer(TestSource::new(&log));
    scene
        .layer_mut(handle)
        .expect("layer")
        .set_display(full_screen());

    let registry = registry();
    let mut committer = Accepting::default();

    let build = build_frame(&mut scene, &registry, real_commit(), &mut committer)
        .expect("build");
    scene.finalize_frame(build, KernelResult::Applied);
    scene.flip_landed();
    assert!(log.borrow().released.is_empty());

    // Remove it while its buffer is still on screen.
    assert!(scene.remove_layer(handle));
    assert!(scene.is_empty());

    // Draining must still reach the retired source.
    scene.drain();
    assert_eq!(
        log.borrow().released,
        vec![100],
        "the buffer must reach the source that produced it, not vanish"
    );
}

#[test]
fn an_empty_scene_builds_an_empty_frame() {
    let mut scene = LayerScene::new(1);
    let mut committer = Accepting::default();

    let build = build_frame(&mut scene, &registry(), real_commit(), &mut committer)
        .expect("build");
    let report = scene.finalize_frame(build, KernelResult::Applied);

    assert_eq!(report.layers_total, 0);
    assert!(report.accounting_balances());

    scene.flip_landed();
}

#[test]
fn changing_a_hint_forces_reallocation() {
    let log = Rc::new(RefCell::new(SourceLog::default()));
    let mut scene = LayerScene::new(1);
    let handle = scene.add_layer(TestSource::new(&log));
    scene
        .layer_mut(handle)
        .expect("layer")
        .set_display(full_screen());

    let registry = registry();
    let mut committer = Accepting::default();

    let build = build_frame(&mut scene, &registry, real_commit(), &mut committer)
        .expect("build");
    scene.finalize_frame(build, KernelResult::Applied);
    scene.flip_landed();

    scene
        .layer_mut(handle)
        .expect("layer")
        .set_content_type(ContentType::Video);
    assert!(scene.layer(handle).expect("layer").hints_dirty());

    let calls_before = committer.calls;
    let build = build_frame(&mut scene, &registry, real_commit(), &mut committer)
        .expect("build");
    assert!(
        committer.calls > calls_before,
        "a changed hint must force a re-search, not reuse the cached assignment"
    );
    assert!(
        !scene.layer(handle).expect("layer").hints_dirty(),
        "and the flag clears once the allocation has seen it"
    );
    scene.finalize_frame(build, KernelResult::Applied);
    scene.flip_landed();
    scene.drain();
}

#[test]
fn a_scene_without_an_armed_flip_drops_cleanly() {
    let log = Rc::new(RefCell::new(SourceLog::default()));
    let mut scene = LayerScene::new(1);
    let handle = scene.add_layer(TestSource::new(&log));
    scene
        .layer_mut(handle)
        .expect("layer")
        .set_display(full_screen());

    let mut committer = Accepting::default();
    let build = build_frame(&mut scene, &registry(), CommitKind::Real { arms_flip: false }, &mut committer)
        .expect("build");
    scene.finalize_frame(build, KernelResult::Applied);

    assert!(!scene.has_pending_flip());
    scene.drain();
}

#[test]
fn a_steady_frame_issues_no_test_commit() {
    let log = Rc::new(RefCell::new(SourceLog::default()));
    let mut scene = LayerScene::new(1);
    let handle = scene.add_layer(TestSource::new(&log));
    scene
        .layer_mut(handle)
        .expect("layer")
        .set_display(full_screen());

    let registry = registry();
    let mut committer = Accepting::default();

    let build = build_frame(&mut scene, &registry, real_commit(), &mut committer)
        .expect("first frame");
    scene.finalize_frame(build, KernelResult::Applied);
    scene.flip_landed();
    let after_first = committer.calls;
    assert!(
        after_first > 0,
        "the first frame has no baseline and must search"
    );

    // Nothing changed but the buffer, which is what a compositor does every
    // frame it is not reconfiguring anything.
    let build = build_frame(&mut scene, &registry, real_commit(), &mut committer)
        .expect("second frame");
    let took_fast_path = build.report().fb_delta_fast_path;
    scene.finalize_frame(build, KernelResult::Applied);
    scene.flip_landed();

    assert!(
        took_fast_path,
        "an unchanged layer set must take the FB-only fast path"
    );
    assert_eq!(
        committer.calls,
        after_first,
        "a steady frame must not issue a test commit; it issued {}",
        committer.calls - after_first
    );
}

#[test]
fn removing_a_layer_does_not_force_a_search() {
    let log = Rc::new(RefCell::new(SourceLog::default()));
    let mut scene = LayerScene::new(1);
    let keep = scene.add_layer(TestSource::new(&log));
    let drop_me = scene.add_layer(TestSource::new(&log));
    for handle in [keep, drop_me] {
        scene
            .layer_mut(handle)
            .expect("layer")
            .set_display(full_screen());
    }

    let registry = registry();
    let mut committer = Accepting::default();

    let build = build_frame(&mut scene, &registry, real_commit(), &mut committer)
        .expect("first frame");
    scene.finalize_frame(build, KernelResult::Applied);
    scene.flip_landed();
    let after_first = committer.calls;

    scene.remove_layer(drop_me);

    let build = build_frame(&mut scene, &registry, real_commit(), &mut committer)
        .expect("frame after removal");
    scene.finalize_frame(build, KernelResult::Applied);
    scene.flip_landed();

    assert_eq!(
        committer.calls, after_first,
        "removing a layer must not re-test the survivors"
    );
}

#[test]
fn a_steady_frame_disables_nothing_and_diffs_everything() {
    let log = Rc::new(RefCell::new(SourceLog::default()));
    let mut scene = LayerScene::new(1);
    let handle = scene.add_layer(TestSource::new(&log));
    scene
        .layer_mut(handle)
        .expect("layer")
        .set_display(full_screen());

    let registry = registry();
    let mut committer = Accepting::default();

    let build = build_frame(&mut scene, &registry, real_commit(), &mut committer)
        .expect("first frame");
    assert!(
        build.plan().iter().all(|entry| entry.baseline.is_none()),
        "the first frame has no baseline and must write every property"
    );
    scene.finalize_frame(build, KernelResult::Applied);
    scene.flip_landed();

    let build = build_frame(&mut scene, &registry, real_commit(), &mut committer)
        .expect("second frame");
    let all_have_baselines = build.plan().iter().all(|entry| entry.baseline.is_some());
    let disables = build.disables().to_vec();
    scene.finalize_frame(build, KernelResult::Applied);
    scene.flip_landed();

    assert!(
        all_have_baselines,
        "a plane the kernel already accepted must be diffed, not re-stated"
    );
    assert!(
        disables.is_empty(),
        "no plane changed hands, so nothing needs disabling; got {disables:?}"
    );
}

#[test]
fn the_plane_a_removed_layer_held_is_disabled() {
    let log = Rc::new(RefCell::new(SourceLog::default()));
    let mut scene = LayerScene::new(1);
    let keep = scene.add_layer(TestSource::new(&log));
    let drop_me = scene.add_layer(TestSource::new(&log));
    for handle in [keep, drop_me] {
        scene
            .layer_mut(handle)
            .expect("layer")
            .set_display(full_screen());
    }

    let registry = registry();
    let mut committer = Accepting::default();

    let build = build_frame(&mut scene, &registry, real_commit(), &mut committer)
        .expect("first frame");
    let vacated = build
        .plan()
        .iter()
        .find(|entry| entry.layer_id == drop_me.layer_id())
        .map(|entry| entry.plane_id)
        .expect("the layer being dropped must have been placed");
    scene.finalize_frame(build, KernelResult::Applied);
    scene.flip_landed();

    scene.remove_layer(drop_me);

    let build = build_frame(&mut scene, &registry, real_commit(), &mut committer)
        .expect("frame after removal");
    let disables = build.disables().to_vec();
    scene.finalize_frame(build, KernelResult::Applied);
    scene.flip_landed();

    assert!(
        disables.contains(&vacated),
        "plane {vacated} still holds the removed layer's framebuffer and was \
         not disabled; disables were {disables:?}"
    );
}

#[test]
fn a_starved_layer_holds_its_plane_and_the_report_still_balances() {
    let log = Rc::new(RefCell::new(SourceLog::default()));
    let mut scene = LayerScene::new(1);
    let steady = scene.add_layer(TestSource::new(&log));
    let hiccup_source = TestSource::new(&log);
    let switch = hiccup_source.starve_switch();
    let hiccup = scene.add_layer(hiccup_source);
    for handle in [steady, hiccup] {
        scene
            .layer_mut(handle)
            .expect("layer")
            .set_display(full_screen());
    }

    let registry = registry();
    let mut committer = Accepting::default();

    // One good frame, so the layer has something to hold.
    let build = build_frame(&mut scene, &registry, real_commit(), &mut committer)
        .expect("first frame");
    let plane_of_hiccup = build
        .plan()
        .iter()
        .find(|entry| entry.layer_id == hiccup.layer_id())
        .map(|entry| entry.plane_id)
        .expect("both layers must be placed");
    scene.finalize_frame(build, KernelResult::Applied);
    scene.flip_landed();

    switch.set(true);

    let build = build_frame(&mut scene, &registry, real_commit(), &mut committer)
        .expect("starved frame");
    let still_programmed = build
        .plan()
        .iter()
        .any(|entry| entry.plane_id == plane_of_hiccup);
    let disabled = build.disables().contains(&plane_of_hiccup);
    let report = scene.finalize_frame(build, KernelResult::Applied);
    scene.flip_landed();

    assert!(
        still_programmed,
        "a starved layer must keep its plane and re-attach the frame it \
         already had"
    );
    assert!(
        !disabled,
        "plane {plane_of_hiccup} was switched off; the layer would blink"
    );
    assert_eq!(
        report.layers_skipped_no_frame, 1,
        "the starved layer must be counted as skipped"
    );
    assert!(
        report.accounting_balances(),
        "report double-counts the starved layer: total {} != assigned {} + \
         composited {} + unassigned {} + skipped {}",
        report.layers_total,
        report.layers_assigned,
        report.layers_composited,
        report.layers_unassigned,
        report.layers_skipped_no_frame
    );

    scene.drain();
}

fn shown_scene() -> (LayerScene<TestSource>, LayerHandle, Rc<RefCell<SourceLog>>) {
    let log = Rc::new(RefCell::new(SourceLog::default()));
    let mut scene = LayerScene::new(1);
    let handle = scene.add_layer(TestSource::new(&log));
    scene
        .layer_mut(handle)
        .expect("layer")
        .set_display(full_screen());
    (scene, handle, log)
}

#[test]
fn lost_master_while_placing_returns_what_was_taken() {
    let (mut scene, _, log) = shown_scene();
    let draft = scene.draft_frame().expect("draft");
    let result = scene.build_frame(
        draft,
        Err(TestFailure::NotMaster),
        &registry(),
        &[31, 32],
        real_commit(),
        None,
    );
    assert!(matches!(result, Err(SceneError::NotMaster)));
    assert_eq!(log.borrow().released, vec![100]);
}

#[test]
fn a_search_that_was_refused_places_nothing() {
    let (mut scene, _, log) = shown_scene();
    let draft = scene.draft_frame().expect("draft");
    let build = scene
        .build_frame(
            draft,
            Err(TestFailure::Rejected),
            &registry(),
            &[31, 32],
            real_commit(),
            None,
        )
        .expect("build");
    assert!(build.plan().is_empty());
    assert_eq!(build.report().layers_unassigned, 1);
    assert!(build.report().accounting_balances());
    scene.finalize_frame(build, KernelResult::Rejected);
    assert_eq!(log.borrow().released, vec![100]);
}

#[test]
fn a_test_commit_releases_at_once_and_changes_nothing() {
    let (mut scene, _, log) = shown_scene();
    let mut committer = Accepting::default();
    let build = build_frame(&mut scene, &registry(), CommitKind::Test, &mut committer)
        .expect("build");
    scene.finalize_frame(build, KernelResult::Applied);
    assert_eq!(log.borrow().released, vec![100]);
    assert!(!scene.has_pending_flip());
}

#[test]
fn a_layer_keeps_what_it_is_told() {
    let (mut scene, handle, _) = shown_scene();
    assert_eq!(scene.crtc_id(), 1);
    assert_eq!(scene.len(), 1);
    assert_eq!(scene.handles(), vec![handle]);
    assert!(handle.is_valid() && !LayerHandle::default().is_valid());
    assert_eq!(scene.resolve(handle), Some(0));
    assert_eq!(scene.resolve(LayerHandle::default()), None);
    let layer = scene.layer_mut(handle).expect("layer");
    assert_eq!(*layer.display(), full_screen());
    assert!(!layer.hints_dirty());
    layer.set_update_hint(60);
    layer.set_app_priority(3);
    assert!(layer.hints_dirty());
    assert_eq!((layer.update_hint_hz(), layer.app_priority()), (60, 3));
    assert_eq!(layer.content_type(), ContentType::Generic);
    assert_eq!(layer.source().next_fb, 100);
    layer.source_mut().next_fb = 200;

    let draft = scene.draft_frame().expect("draft");
    assert!(draft.reset_placement, "a changed hint starts over");
    assert_eq!(draft.acquisitions[0].buffer.fb_id, 200);
    assert_eq!(draft.lowered[0].layer.app_priority, 3);
    assert_eq!(draft.tally.acquired, 1);
}

#[test]
fn a_removed_layer_is_announced_as_departed() {
    let (mut scene, handle, _) = shown_scene();
    assert!(scene.remove_layer(handle));
    let draft = scene.draft_frame().expect("draft");
    assert_eq!(draft.departed, vec![handle.layer_id()]);
    assert!(draft.lowered.is_empty());
    let again = scene.draft_frame().expect("draft");
    assert!(again.departed.is_empty(), "once");
}

#[test]
fn a_held_layers_buffer_is_not_returned_while_shown() {
    let log = Rc::new(RefCell::new(SourceLog::default()));
    let mut scene = LayerScene::new(1);
    let source = TestSource::new(&log);
    let switch = source.starve_switch();
    let handle = scene.add_layer(source);
    scene
        .layer_mut(handle)
        .expect("layer")
        .set_display(full_screen());
    let registry = registry();
    let mut committer = Accepting::default();
    for frame in 0..5 {
        switch.set(frame > 0);
        let build = build_frame(&mut scene, &registry, real_commit(), &mut committer)
            .expect("build");
        scene.finalize_frame(build, KernelResult::Applied);
        scene.flip_landed();
        assert!(
            log.borrow().released.is_empty(),
            "frame {frame}: its only buffer is on screen"
        );
    }
    scene.drain();
    assert_eq!(log.borrow().released, vec![100]);
}
