//! Layer sources: dumb buffers, imported buffers, rings and pools of them, and
//! cursors. Framebuffer ids stand in for the device that would make them.

use drmkit::cache::DmaBufSourceCache;
use drmkit::canvas::ScanoutBuffer;
use drmkit::cursor::{blit, Cursor, CursorFrame, CursorSource};
use drmkit::dumb::{errno, DumbBufferSource, DumbError};
use drmkit::errno::{Errno, EINVAL, EIO, EOVERFLOW};
use drmkit::external::{
    drmkit_fmt_invalid, plan_import, plan_shape, ExternalDmaBufSource, ExternalError, ExternalPlane,
    ImportedFramebuffer, InvalidReason, Teardown,
};
use drmkit::fourcc::{ARGB8888, MOD_INVALID, MOD_LINEAR, XRGB8888};
use drmkit::pool::ExternalDmaBufPool;
use drmkit::presenter::Present;
use drmkit::ring::{resolve_framebuffer, ExternalDmaBufRing, FreedBuffer, SlotImport};
use drmkit::source::{
    AcquiredBuffer, BindingModel, DamageRect, LayerBufferSource, MapAccess, SourceError,
    SourceFormat,
};
use drmkit::sync::SyncFence;
use drmkit::time::Timestamp;
use std::time::Duration;

fn format_of(width: u32, height: u32) -> SourceFormat {
    SourceFormat {
        fourcc: XRGB8888,
        modifier: 0,
        width,
        height,
    }
}

fn plane(fd: i32, pitch: u32) -> ExternalPlane {
    ExternalPlane {
        fd,
        offset: 0,
        pitch,
    }
}

fn with_token(token: u64) -> AcquiredBuffer {
    AcquiredBuffer {
        token,
        ..AcquiredBuffer::default()
    }
}

fn scanout(stride: u32, height: u32, fb_id: u32) -> ScanoutBuffer {
    ScanoutBuffer {
        stride,
        data: vec![0; (stride * height) as usize],
        fb_id: Some(fb_id),
    }
}

// Dumb buffers.

#[test]
fn acquiring_without_a_framebuffer_is_a_failure_not_a_skip() {
    // A source can only reach this state through a failed allocation, which
    // `create` reports instead of returning. The distinction still matters:
    // `WouldBlock` means "try next frame", and there is no next frame here.
    let error = SourceError::Failed(Errno { raw: EINVAL });
    assert!(
        !matches!(error, SourceError::WouldBlock),
        "a missing framebuffer is not something a later frame will fix"
    );

    let bare = ScanoutBuffer {
        fb_id: None,
        ..scanout(16, 4, 7)
    };
    let mut source = DumbBufferSource::create(4, 4, XRGB8888, Ok(bare)).expect("create");
    assert!(matches!(
        source.acquire(),
        Err(SourceError::Failed(Errno { raw: EINVAL }))
    ));
}

fn dumb() -> DumbBufferSource {
    DumbBufferSource::create(64, 64, XRGB8888, Ok(scanout(256, 64, 9))).expect("create")
}

#[test]
fn a_dumb_source_hands_out_a_stable_framebuffer() {
    let mut source = dumb();
    assert_eq!(
        LayerBufferSource::format(&source),
        SourceFormat {
            fourcc: XRGB8888,
            modifier: MOD_LINEAR,
            width: 64,
            height: 64
        }
    );
    assert_eq!(source.binding_model(), BindingModel::SceneSubmitsFbId);
    let first = source.acquire().expect("acquire");
    assert_eq!(first.fb_id, 9);
    source.release(first);
    assert_eq!(source.acquire().expect("acquire").fb_id, 9);
    let mapping = source.map(MapAccess::ReadWrite).expect("map");
    assert_eq!((mapping.stride, mapping.width, mapping.height), (256, 64, 64));
    assert_eq!(mapping.pixels.len(), 256 * 64);
    assert_eq!(source.buffer().fb_id, Some(9));
}

#[test]
fn damage_is_reported_once_then_cleared() {
    let mut source = dumb();
    source.set_damage(&[DamageRect {
        x: 4,
        y: 8,
        w: 16,
        h: 16,
    }]);
    let first = source.acquire().expect("acquire");
    assert_eq!(first.damage.len(), 1);
    assert_eq!((first.damage[0].x, first.damage[0].w), (4, 16));
    source.release(first);
    assert!(source.acquire().expect("acquire").damage.is_empty());
}

#[test]
fn setting_damage_replaces_the_previous_set() {
    let mut source = dumb();
    source.set_damage(&[DamageRect {
        x: 0,
        y: 0,
        w: 8,
        h: 8,
    }]);
    source.set_damage(&[DamageRect {
        x: 32,
        y: 32,
        w: 4,
        h: 4,
    }]);
    let acquired = source.acquire().expect("acquire");
    assert_eq!(acquired.damage.len(), 1, "the earlier set is replaced");
    assert_eq!(acquired.damage[0].x, 32);
    source.set_damage(&[]);
    assert!(source.acquire().expect("acquire").damage.is_empty());
}

#[test]
fn a_session_resume_keeps_the_format_and_takes_the_new_buffer() {
    let mut source = dumb();
    let format = LayerBufferSource::format(&source);
    source.on_session_paused();
    assert!(source.resume_with(Err(DumbError::Io(Errno { raw: EIO }))).is_err());
    source
        .resume_with(Ok(scanout(256, 64, 10)))
        .expect("resumed");
    assert_eq!(LayerBufferSource::format(&source), format);
    assert_eq!(source.acquire().expect("acquire").fb_id, 10);
}

#[test]
fn allocation_failures_have_error_numbers() {
    assert_eq!(errno(&DumbError::Io(Errno { raw: 5 })).raw, 5);
    assert_eq!(errno(&DumbError::InvalidConfig).raw, EINVAL);
    assert_eq!(errno(&DumbError::UnsupportedFormat).raw, EINVAL);
    assert_eq!(errno(&DumbError::TooLarge).raw, EOVERFLOW);
    assert_eq!(
        DumbBufferSource::create(1, 1, XRGB8888, Err(DumbError::TooLarge)).err(),
        Some(DumbError::TooLarge)
    );
}

// One imported buffer.

#[test]
fn external_create_rejects_unusable_shapes() {
    let good = format_of(64, 64);
    let reason = |format: SourceFormat, planes: &[ExternalPlane]| {
        match ExternalDmaBufSource::create(format, planes, Ok(5), false) {
            Err(ExternalError::Invalid { reason }) => Some(reason),
            _ => None,
        }
    };
    assert_eq!(
        reason(format_of(0, 64), &[plane(3, 256)]),
        Some(InvalidReason::ZeroExtent)
    );
    assert_eq!(
        reason(format_of(64, 0), &[plane(3, 256)]),
        Some(InvalidReason::ZeroExtent)
    );
    assert_eq!(
        reason(SourceFormat { fourcc: 0, ..good }, &[plane(3, 256)]),
        Some(InvalidReason::ZeroFormat)
    );
    assert_eq!(reason(good, &[]), Some(InvalidReason::PlaneCount));
    assert_eq!(
        reason(good, &[plane(3, 256); 5]),
        Some(InvalidReason::PlaneCount)
    );
    assert_eq!(reason(good, &[plane(3, 0)]), Some(InvalidReason::ZeroPitch));
    assert_eq!(
        reason(
            SourceFormat {
                fourcc: 0xFFFF_FFFF,
                ..good
            },
            &[plane(3, 256)]
        ),
        Some(InvalidReason::UnknownFormat),
        "the format is asked for by name"
    );
    assert_eq!(reason(good, &[plane(3, 256); 4]), None);
    assert_eq!(
        InvalidReason::ZeroPitch.text(),
        "every plane needs a non-zero pitch"
    );
}

#[test]
fn an_import_names_every_plane_and_its_modifier() {
    let planes = [
        ExternalPlane {
            fd: 3,
            offset: 0,
            pitch: 256,
        },
        ExternalPlane {
            fd: 4,
            offset: 16_384,
            pitch: 128,
        },
    ];
    let plan = plan_import(
        SourceFormat {
            modifier: 0x0100_0000_0000_0001,
            ..format_of(64, 32)
        },
        &planes,
    )
    .expect("plan");
    assert_eq!(plan.fds, vec![3, 4]);
    assert_eq!(plan.offsets, [0, 16_384, 0, 0]);
    assert_eq!(plan.pitches, [256, 128, 0, 0]);
    assert_eq!((plan.width, plan.height), (64, 32));
    assert_eq!(plan.fourcc, XRGB8888);
    assert_eq!(plan.modifier, Some(0x0100_0000_0000_0001));

    let implicit = plan_import(
        SourceFormat {
            modifier: MOD_INVALID,
            ..format_of(64, 32)
        },
        &planes,
    )
    .expect("plan");
    assert_eq!(implicit.modifier, None);
    assert_eq!(drmkit_fmt_invalid(), MOD_INVALID);
    assert!(matches!(
        plan_shape(format_of(64, 32), &planes, false),
        Err(ExternalError::Invalid {
            reason: InvalidReason::UnknownFormat
        })
    ));
}

#[test]
fn a_refused_import_is_an_io_error() {
    assert!(matches!(
        ExternalDmaBufSource::create(
            format_of(64, 64),
            &[plane(3, 256)],
            Err(Errno { raw: EIO }),
            true
        ),
        Err(ExternalError::Io(Errno { raw: EIO }))
    ));
}

fn wrapped(has_callback: bool) -> ExternalDmaBufSource {
    ExternalDmaBufSource::create(format_of(64, 64), &[plane(3, 256)], Ok(11), has_callback)
        .expect("wrap")
}

#[test]
fn two_acquires_yield_independently_closeable_fences() {
    let mut source = wrapped(false);
    let (_, _) = source.set_acquire_fence(SyncFence::from_owned(20));
    assert!(source.has_acquire_fence());

    let wanted = source.duplicate_wanted().expect("a copy for the acquire");
    assert_eq!(wanted, 20);
    source.offer_duplicate(SyncFence::from_owned(21));
    let first = source.acquire().expect("acquire");
    assert_eq!(first.acquire_fence, Some(SyncFence::from_owned(21)));

    source.offer_duplicate(SyncFence::from_owned(22));
    let second = source.acquire().expect("acquire");
    assert_eq!(second.acquire_fence, Some(SyncFence::from_owned(22)));
    assert!(source.has_acquire_fence(), "the producer's own stays set");
}

#[test]
fn acquires_are_unfenced_when_no_producer_fence_is_set() {
    let mut source = wrapped(false);
    assert!(!source.has_acquire_fence());
    assert_eq!(source.duplicate_wanted(), None);
    let acquired = source.acquire().expect("acquire");
    assert_eq!(acquired.fb_id, 11);
    assert_eq!(acquired.acquire_fence, None);
}

#[test]
fn the_release_callback_fires_exactly_once() {
    let mut source = wrapped(true);
    assert!(!source.take_requeue(), "nothing was released yet");
    let first = source.acquire().expect("acquire");
    source.release(first);
    assert!(source.take_requeue());
    let second = source.acquire().expect("acquire");
    source.release(second);
    assert!(!source.take_requeue(), "once for the life of the source");
    assert_eq!(
        source.teardown(),
        Teardown {
            fb: Some(11),
            requeue: false
        }
    );
}

#[test]
fn tearing_down_without_releasing_still_requeues() {
    assert_eq!(
        wrapped(true).teardown(),
        Teardown {
            fb: Some(11),
            requeue: true
        }
    );
    assert!(!wrapped(false).teardown().requeue, "nobody asked");
}

#[test]
fn a_forgotten_import_has_no_framebuffer() {
    let mut imported =
        ImportedFramebuffer::import(format_of(64, 64), &[plane(3, 256)], Ok(5)).expect("import");
    assert_eq!(imported.fb_id(), Some(5));
    imported.forget();
    assert_eq!(imported.fb_id(), None);
}

// The cache.

#[test]
fn a_repeated_key_reuses_the_import() {
    let format = format_of(64, 64);
    let planes = [plane(3, 256)];
    let mut cache = DmaBufSourceCache::new();
    assert!(cache.needs_import(7, format));
    let place = cache
        .get_or_create(7, format, &planes, Ok(100))
        .expect("first import");
    let first = cache.source_mut(place).acquire().expect("acquire").fb_id;
    assert!(!cache.needs_import(7, format), "known, so not imported");
    let place = cache
        .get_or_create(7, format, &planes, Ok(101))
        .expect("second lookup");
    let second = cache.source_mut(place).acquire().expect("acquire").fb_id;

    assert_eq!(
        first, second,
        "the same key must hand back the same framebuffer, not a fresh import"
    );
    assert_eq!(cache.len(), 1, "one buffer, one entry");
}

#[test]
fn a_key_reused_for_new_geometry_is_reimported() {
    let mut cache = DmaBufSourceCache::new();
    cache
        .get_or_create(1, format_of(64, 64), &[plane(3, 256)], Ok(100))
        .expect("first import");

    let bigger = format_of(128, 128);
    assert!(cache.needs_import(1, bigger));
    cache
        .get_or_create(1, bigger, &[plane(4, 512)], Ok(100))
        .expect("re-import");

    let cached = cache.find(1).expect("an entry under the reused key");
    assert_eq!(
        LayerBufferSource::format(cached),
        bigger,
        "the geometry changed under the same key, so the source must have been \
         rebuilt rather than handed back stale"
    );
    assert_eq!(
        cache.len(),
        1,
        "the replacement takes the old entry's place"
    );
}

#[test]
fn eviction_forces_a_fresh_import() {
    let format = format_of(64, 64);
    let planes = [plane(3, 256)];
    let mut cache = DmaBufSourceCache::new();
    cache
        .get_or_create(3, format, &planes, Ok(100))
        .expect("import");
    assert!(cache.find(3).is_some());

    assert!(
        cache.evict(3),
        "evicting a present key reports it was there"
    );
    assert!(!cache.evict(3), "evicting it twice does not");
    assert!(cache.find(3).is_none());
    assert!(cache.is_empty());

    cache
        .get_or_create(3, format, &planes, Ok(101))
        .expect("re-import after eviction");
    assert_eq!(cache.len(), 1);

    cache.clear();
    assert!(cache.is_empty(), "clear drops everything");
}

#[test]
fn sources_the_cache_lets_go_come_back_for_teardown() {
    let planes = [plane(3, 256)];
    let mut cache = DmaBufSourceCache::new();
    let fbs = |cache: &mut DmaBufSourceCache| -> Vec<Option<u32>> {
        cache.take_dropped().into_iter().map(|source| source.teardown().fb).collect()
    };
    cache.get_or_create(1, format_of(64, 64), &planes, Ok(100)).expect("import");
    assert!(fbs(&mut cache).is_empty());
    cache.get_or_create(1, format_of(32, 32), &planes, Ok(101)).expect("replace");
    assert_eq!(fbs(&mut cache), vec![Some(100)]);
    cache.get_or_create(2, format_of(64, 64), &planes, Ok(102)).expect("import");
    assert!(cache.evict(1));
    assert_eq!(fbs(&mut cache), vec![Some(101)]);
    cache.clear();
    assert_eq!(fbs(&mut cache), vec![Some(102)]);
}

#[test]
fn each_acquire_duplicates_the_producers_fence() {
    let mut source = wrapped(false);
    let (_, _) = source.set_acquire_fence(SyncFence::from_owned(20));
    let first = source.acquire_duplicating(|fd| Some(fd + 1)).expect("acquire");
    let second = source.acquire_duplicating(|fd| Some(fd + 2)).expect("acquire");
    assert_eq!(first.acquire_fence, Some(SyncFence::from_owned(21)));
    assert_eq!(second.acquire_fence, Some(SyncFence::from_owned(22)));
    assert!(source.has_acquire_fence());
    let unfenced = source.acquire_duplicating(|_| None).expect("acquire");
    assert_eq!(unfenced.acquire_fence, None);
}

#[test]
fn a_failed_import_leaves_the_cache_untouched() {
    let mut cache = DmaBufSourceCache::default();
    let refused = cache.get_or_create(
        9,
        format_of(0, 64), // rejected before any ioctl
        &[plane(3, 256)],
        Ok(100),
    );

    assert!(refused.is_err(), "a zero dimension must be refused");
    assert!(
        cache.find(9).is_none(),
        "a failed import must leave no entry behind to be handed out later"
    );
    assert!(cache.is_empty());

    let refused = cache.get_or_create(
        9,
        format_of(64, 64),
        &[plane(3, 256)],
        Err(Errno { raw: EIO }),
    );
    assert!(matches!(refused, Err(ExternalError::Io(_))));
    assert!(cache.is_empty());
}

// Rings.

fn ring_of(n: u32) -> ExternalDmaBufRing {
    let slots = (0..n).map(|i| slot_of(Ok(50 + i))).collect();
    ExternalDmaBufRing::create(format_of(64, 64), &slots, None).expect("import the ring")
}

fn slot_of(imported: Result<u32, Errno>) -> SlotImport {
    SlotImport {
        planes: vec![plane(3, 256)],
        imported,
    }
}

#[test]
fn the_first_slot_that_cannot_be_imported_refuses_the_ring() {
    let slots = vec![
        slot_of(Ok(50)),
        slot_of(Err(Errno { raw: EIO })),
        SlotImport {
            planes: Vec::new(),
            imported: Ok(52),
        },
    ];
    assert!(matches!(
        ExternalDmaBufRing::create(format_of(64, 64), &slots, None),
        Err(ExternalError::Io(Errno { raw: EIO }))
    ));
    let slots = vec![
        SlotImport {
            planes: Vec::new(),
            imported: Ok(52),
        },
        slot_of(Err(Errno { raw: EIO })),
    ];
    assert!(matches!(
        ExternalDmaBufRing::create(format_of(64, 64), &slots, None),
        Err(ExternalError::Invalid {
            reason: InvalidReason::PlaneCount
        })
    ));
    let imports = vec![
        Ok(ImportedFramebuffer { fb: Some(7) }),
        Ok(ImportedFramebuffer { fb: Some(8) }),
    ];
    let ring = ExternalDmaBufRing::from_imports(format_of(64, 64), imports, None).expect("ring");
    assert_eq!(ring.slot_count(), 2);
    assert_eq!(ring.slots[1].fb_id(), Some(8));
}

#[test]
fn each_slot_gets_its_own_framebuffer() {
    let mut ring = ring_of(3);
    assert_eq!(ring.slot_count(), 3);

    let mut seen = std::collections::HashSet::new();
    for slot in 0..3 {
        ring.submit(slot, None, &[]);
        let fb = ring.acquire().expect("acquire").fb_id;
        assert!(fb != 0, "slot {slot} has no framebuffer");
        assert!(
            seen.insert(fb),
            "slot {slot} reused another slot's framebuffer"
        );
    }
}

#[test]
fn an_idle_ring_holds_the_last_frame() {
    let mut ring = ring_of(2);

    ring.submit(1, None, &[]);
    let first = ring.acquire().expect("first frame");
    assert!(!ring.has_fresh_frame(), "the submission was taken");

    let held = ring.acquire().expect("an idle vblank still presents");
    assert_eq!(held.fb_id, first.fb_id, "the same buffer stays up");
    assert_eq!(
        held.token, first.token,
        "and under the same token, so it is not mistaken for a superseded frame"
    );
}

#[test]
fn a_slot_is_released_when_superseded() {
    let mut ring = ring_of(2);
    ring.set_on_release();

    ring.submit(0, None, &[]);
    let first_token = ring.acquire().expect("first").token;
    ring.release(with_token(first_token));
    assert!(
        ring.take_freed().is_empty(),
        "slot 0 is still on screen; telling the producer it is free would race \
         it into overwriting live scanout"
    );

    ring.submit(1, None, &[]);
    let second_token = ring.acquire().expect("second").token;
    ring.release(with_token(first_token));
    assert_eq!(
        ring.take_freed(),
        vec![FreedBuffer {
            buffer: 0,
            fence: None
        }],
        "slot 0 left the screen and must come back to the producer"
    );

    // And the newly live one still does not.
    ring.release(with_token(second_token));
    assert!(ring.take_freed().is_empty());
}

#[test]
fn a_release_fence_is_forwarded_to_the_producer() {
    let mut ring = ring_of(2);
    ring.set_on_release();
    assert!(
        ring.wants_release_fence(),
        "with a listener attached the scene should ask the kernel for an \
         out-fence"
    );

    ring.submit(0, None, &[]);
    let first_token = ring.acquire().expect("first").token;
    ring.submit(1, None, &[]);
    ring.acquire().expect("second");

    ring.release_with_fence(with_token(first_token), Some(SyncFence::from_owned(30)));

    let freed = ring.take_freed();
    assert_eq!(
        freed.iter().filter(|f| f.fence.is_some()).count(),
        1,
        "the displacing commit's fence must reach the producer"
    );
    assert_eq!(freed[0].fence, Some(SyncFence::from_owned(30)));
}

#[test]
fn a_ring_with_no_listener_wants_no_release_fence() {
    let ring = ring_of(1);
    assert!(!ring.wants_release_fence());
}

#[test]
fn a_paused_ring_presents_nothing() {
    let mut ring = ring_of(2);

    ring.submit(0, None, &[]);
    ring.acquire().expect("a frame before the pause");

    ring.on_session_paused();

    assert_eq!(ring.scanning_slot(), None, "nothing is on screen any more");
    assert!(
        matches!(ring.acquire(), Err(SourceError::WouldBlock)),
        "with nothing on screen there is nothing to hold"
    );

    // A producer that keeps submitting across the pause must not be handed a
    // framebuffer id registered on a descriptor that no longer exists.
    ring.submit(0, None, &[]);
    assert!(
        matches!(ring.acquire(), Err(SourceError::Failed(_))),
        "a slot whose framebuffer was forgotten must not be presented"
    );
}

#[test]
fn an_empty_ring_is_refused() {
    let result = ExternalDmaBufRing::create(format_of(64, 64), &vec![], None);
    assert!(
        matches!(
            result,
            Err(ExternalError::Invalid {
                reason: InvalidReason::NoSlots
            })
        ),
        "a ring with no slots can never present"
    );
}

#[test]
fn an_out_of_range_submit_is_ignored() {
    let mut ring = ring_of(2);

    ring.submit(99, None, &[]);
    assert!(!ring.has_fresh_frame(), "nothing was queued");
    assert!(matches!(ring.acquire(), Err(SourceError::WouldBlock)));
}

#[test]
fn a_ring_waits_for_its_fence_where_it_has_a_deadline() {
    let mut ring = ExternalDmaBufRing::create(
        format_of(64, 64),
        &vec![slot_of(Ok(50))],
        Some(Duration::from_millis(2)),
    )
    .expect("ring");
    ring.submit(0, Some(SyncFence::from_owned(8)), &[]);
    assert_eq!(ring.fence_wait().expect("wait").fd, Some(8));
    ring.note_fence_wait(true);
    assert_eq!(ring.acquire().expect("in time").fb_id, 50);
    assert_eq!(ring.scanning_slot(), Some(0));
    assert_eq!(ring.fence_wait(), None);
}

#[test]
fn what_a_presentation_resolves_to() {
    assert_eq!(resolve_framebuffer(Present::Fresh, Some(4)), Ok(4));
    assert_eq!(resolve_framebuffer(Present::Hold, Some(4)), Ok(4));
    assert_eq!(
        resolve_framebuffer(Present::Nothing, Some(4)),
        Err(SourceError::WouldBlock)
    );
    assert!(matches!(
        resolve_framebuffer(Present::Fresh, None),
        Err(SourceError::Failed(_))
    ));
}

// Pools.

#[test]
fn a_pool_imports_each_key_once() {
    let mut pool = ExternalDmaBufPool::new(format_of(64, 64), None);
    assert_eq!(pool.cached_count(), 0, "a pool starts empty");

    assert!(pool.needs_import(42));
    assert!(pool.submit(42, &[plane(3, 256)], Ok(70), None, &[]));
    let first = pool.acquire().expect("first frame").fb_id;
    assert_eq!(pool.cached_count(), 1);

    assert!(!pool.needs_import(42));
    assert!(pool.submit(42, &[], Err(Errno { raw: EIO }), None, &[]));
    let second = pool.acquire().expect("second frame").fb_id;

    assert_eq!(first, second, "the same key must reuse its import");
    assert_eq!(pool.cached_count(), 1, "and not import a second time");
}

#[test]
fn a_pool_keeps_keys_apart() {
    let mut pool = ExternalDmaBufPool::new(format_of(64, 64), None);
    pool.submit(1, &[plane(3, 256)], Ok(70), None, &[]);
    let first = pool.acquire().expect("first").fb_id;

    pool.submit(2, &[plane(3, 256)], Ok(71), None, &[]);
    let second = pool.acquire().expect("second").fb_id;

    assert_ne!(first, second, "two keys must not share a framebuffer");
    assert_eq!(pool.cached_count(), 2);
}

#[test]
fn a_failed_import_holds_the_last_frame() {
    let mut pool = ExternalDmaBufPool::new(format_of(64, 64), None);
    pool.submit(1, &[plane(3, 256)], Ok(70), None, &[]);
    let good = pool.acquire().expect("a good frame").fb_id;

    // A key the pool has never seen, with a plane list that cannot be imported.
    assert!(
        !pool.submit(2, &[], Ok(71), None, &[]),
        "an empty plane list cannot be imported"
    );
    assert!(
        !pool.submit(2, &[plane(3, 256)], Err(Errno { raw: EIO }), None, &[]),
        "nor one the kernel refuses"
    );
    assert!(!pool.submit_imported(2, None, None, &[]));
    assert_eq!(pool.cached_count(), 1, "the bad key cached nothing");

    let held = pool.acquire().expect("the layer must not go blank");
    assert_eq!(held.fb_id, good, "the last good buffer stays up");
}

#[test]
fn a_generation_reset_retires_buffers_only_once_unreferenced() {
    let mut pool = ExternalDmaBufPool::new(format_of(64, 64), None);
    pool.submit(1, &[plane(3, 256)], Ok(70), None, &[]);
    let old_token = pool.acquire().expect("the old generation").token;
    assert_eq!(pool.cached_count(), 1);

    pool.reset_generation(format_of(32, 32));

    // Still on screen, so still imported.
    pool.acquire().expect("holding the old buffer");
    assert_eq!(
        pool.cached_count(),
        1,
        "the retiring buffer is on screen and must not be torn down under it"
    );

    // The new generation arrives under a fresh key, as the contract requires.
    pool.submit(2, &[plane(3, 256)], Ok(71), None, &[]);
    pool.acquire().expect("the new generation");
    pool.release(with_token(old_token));
    pool.acquire().expect("a later frame sweeps");

    assert_eq!(
        pool.cached_count(),
        1,
        "once nothing references it, the old buffer is torn down"
    );
    assert_eq!(
        LayerBufferSource::format(&pool).width,
        32,
        "and future imports use the new geometry"
    );
}

#[test]
fn a_paused_pool_forgets_its_imports() {
    let mut pool = ExternalDmaBufPool::new(format_of(64, 64), None);
    pool.submit(1, &[plane(3, 256)], Ok(70), None, &[]);
    pool.acquire().expect("a frame");
    assert_eq!(pool.cached_count(), 1);

    pool.on_session_paused();

    assert_eq!(
        pool.cached_count(),
        0,
        "every framebuffer id belonged to a descriptor that is now revoked"
    );
    assert!(matches!(pool.acquire(), Err(SourceError::WouldBlock)));
}

#[test]
fn a_pool_tells_its_listener_what_came_back() {
    let mut pool = ExternalDmaBufPool::new(format_of(64, 64), Some(Duration::from_millis(2)));
    assert!(!pool.wants_release_fence());
    pool.set_on_release();
    assert!(pool.wants_release_fence());
    pool.submit(1, &[plane(3, 256)], Ok(70), Some(SyncFence::from_owned(8)), &[]);
    assert_eq!(pool.fence_wait().expect("wait").fd, Some(8));
    pool.note_fence_wait(true);
    assert!(pool.has_fresh_content());
    let first = pool.acquire().expect("first").token;
    pool.submit(2, &[plane(3, 256)], Ok(71), None, &[]);
    pool.acquire().expect("second");
    pool.release_with_fence(with_token(first), Some(SyncFence::from_owned(9)));
    assert_eq!(
        pool.take_freed(),
        vec![FreedBuffer {
            buffer: 1,
            fence: Some(SyncFence::from_owned(9))
        }]
    );
}

// Cursors.

fn sprite(width: u32, height: u32, pixel: u32) -> CursorFrame {
    CursorFrame {
        pixels: vec![pixel; (width * height) as usize],
        width,
        height,
        xhot: width / 2,
        yhot: height / 2,
        delay: Duration::from_millis(100),
    }
}

fn pixel(source: &CursorSource, x: u32, y: u32) -> u32 {
    let at = (y * source.buffer.stride + x * 4) as usize;
    let data = &source.buffer.data;
    u32::from_ne_bytes([data[at], data[at + 1], data[at + 2], data[at + 3]])
}

#[test]
fn a_sprite_reaches_the_buffer_intact() {
    let pixels: Vec<u32> = (1..=6).collect();
    let source =
        CursorSource::from_argb(pixels, 3, 2, 1, 0, Ok(scanout(16, 2, 12))).expect("cursor");
    assert_eq!(source.size(), (3, 2));
    assert_eq!(source.hotspot(), (1, 0));
    assert_eq!(LayerBufferSource::format(&source).fourcc, ARGB8888);
    let read: Vec<u32> = (0..2)
        .flat_map(|y| (0..3).map(move |x| (x, y)))
        .map(|(x, y)| pixel(&source, x, y))
        .collect();
    assert_eq!(read, vec![1, 2, 3, 4, 5, 6]);
}

#[test]
fn a_sprite_of_the_wrong_length_is_refused() {
    assert!(matches!(
        CursorSource::from_argb(vec![0; 5], 3, 2, 0, 0, Ok(scanout(16, 2, 12))),
        Err(SourceError::Failed(Errno { raw: EINVAL }))
    ));
    assert!(matches!(
        CursorSource::from_argb(vec![0; 6], 3, 2, 0, 0, Err(DumbError::TooLarge)),
        Err(SourceError::Failed(Errno { raw: EOVERFLOW }))
    ));
    assert!(Cursor::from_argb(vec![7], 1, 1, 0, 0).is_ok());
}

fn animated() -> CursorSource {
    let cursor = Cursor {
        frames: vec![sprite(4, 4, 0xFFFF_FFFF), sprite(2, 2, 0xFF00_FF00)],
    };
    assert_eq!(cursor.extent(), (4, 4), "sized to the largest frame");
    CursorSource::new(cursor, Ok(scanout(16, 4, 12))).expect("cursor")
}

#[test]
fn a_smaller_frame_does_not_leave_the_previous_one_around_it() {
    let mut source = animated();
    assert_eq!(pixel(&source, 3, 3), 0xFFFF_FFFF);
    source.tick(1);
    assert_eq!(source.due(), Some(1));
    let acquired = source.acquire().expect("acquire");
    assert!(acquired.damage.is_empty(), "a repaint is the whole frame");
    assert_eq!(pixel(&source, 0, 0), 0xFF00_FF00);
    assert_eq!(pixel(&source, 3, 3), 0, "no halo of the frame before");
    assert_eq!(source.hotspot(), (1, 1));
    assert_eq!(source.due(), None, "painted");
}

#[test]
fn an_unchanged_frame_reports_no_damage() {
    let mut source = animated();
    assert!(source.acquire().expect("acquire").damage.is_empty());
    source.tick(0);
    assert!(source.acquire().expect("acquire").damage.is_empty());
}

#[test]
fn a_static_cursor_never_advances() {
    let mut source = CursorSource::from_argb(vec![5], 1, 1, 0, 0, Ok(scanout(4, 1, 12)))
        .expect("cursor");
    assert_eq!(source.due(), None);
    assert_eq!(source.acquire().expect("acquire").fb_id, 12);
    assert_eq!(source.cursor().frames.len(), 1);
    source.on_session_paused();
    source.resume_with(Ok(scanout(4, 1, 13))).expect("resumed");
    assert_eq!(source.acquire().expect("acquire").fb_id, 13);
    assert_eq!(pixel(&source, 0, 0), 5, "painted again after the resume");
}

#[test]
fn a_blit_clears_what_the_sprite_does_not_cover() {
    let mut buffer = ScanoutBuffer {
        stride: 12,
        data: vec![0xEE; 24],
        fb_id: Some(1),
    };
    blit(&mut buffer, 2, &vec![1, 2], 2, 1, 3);
    assert_eq!(&buffer.data[0..4], &1u32.to_ne_bytes());
    assert_eq!(&buffer.data[4..8], &2u32.to_ne_bytes());
    assert!(buffer.data[8..].iter().all(|byte| *byte == 0));
}

#[test]
fn a_pool_imports_under_its_current_format() {
    let mut pool = ExternalDmaBufPool::new(format_of(64, 64), None);
    assert!(pool.submit(1, &[plane(3, 256)], Ok(70), None, &[]));
    pool.reset_generation(format_of(0, 64));
    assert!(
        !pool.submit(2, &[plane(3, 256)], Ok(71), None, &[]),
        "nothing is imported under a format that makes no sense"
    );
    assert!(pool.submit_imported(3, Some(72), None, &[]));
}

#[test]
fn a_one_frame_cursor_is_never_due() {
    let mut source = CursorSource::from_argb(vec![5], 1, 1, 0, 0, Ok(scanout(4, 1, 12)))
        .expect("cursor");
    assert_eq!(source.cursor().frames[0].delay, Duration::ZERO);
    source.tick(1);
    assert_eq!(source.due(), None);
    assert_eq!(source.run_time(Timestamp::from_nanos(5)), None);
    assert_eq!(source.started, None);
}

#[test]
fn an_animation_starts_when_its_clock_is_first_asked() {
    let mut source = animated();
    assert_eq!(source.started, None);
    let at = Timestamp::from_nanos;
    assert_eq!(source.run_time(at(100)), Some(Duration::ZERO));
    assert_eq!(source.run_time(at(175)), Some(Duration::from_nanos(75)));
    assert_eq!(source.run_time(at(40)), Some(Duration::ZERO));
    assert_eq!(source.started, Some(at(100)));
}

#[test]
fn a_displaced_fence_is_kept_to_be_closed() {
    let mut pool = ExternalDmaBufPool::new(format_of(64, 64), None);
    pool.submit(1, &[plane(3, 256)], Ok(70), Some(SyncFence::from_owned(5)), &[]);
    assert!(pool.take_spent().is_empty());
    pool.submit(2, &[plane(3, 256)], Ok(71), None, &[]);
    assert_eq!(pool.take_spent(), vec![SyncFence::from_owned(5)]);
    assert_eq!(pool.acquire().expect("the newer frame").fb_id, 71);
}
