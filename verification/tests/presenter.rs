//! Which buffer a producer's ring presents, and when one comes back.

use drmkit::presenter::{FenceWait, Outstanding, Present, RingPresenter, MAX_DAMAGE};
use drmkit::source::DamageRect;
use drmkit::sync::SyncFence;
use std::time::Duration;

fn rect(x: i32, y: i32) -> DamageRect {
    DamageRect { x, y, w: 8, h: 8 }
}

/// Nothing submitted, nothing to present.
#[test]
fn a_presenter_with_no_frame_yet_presents_nothing() {
    let mut p = RingPresenter::new(None);
    let out = p.acquire();
    assert_eq!(out.kind, Present::Nothing);
    assert_eq!(out.token, 0, "the sentinel token, which release ignores");
    assert!(!p.has_fresh_frame());
}

/// A submitted frame is presented once, under a fresh token.
#[test]
fn a_submitted_frame_is_presented_once() {
    let mut p = RingPresenter::new(None);
    p.submit(3, None, &[]);
    assert!(p.has_fresh_frame());

    let first = p.acquire();
    assert_eq!(first.kind, Present::Fresh);
    assert_eq!(first.key, 3);
    assert_ne!(first.token, 0);
    assert!(!p.has_fresh_frame(), "the pending frame was taken");

    // Nothing new arrived, so the same buffer stays up.
    let second = p.acquire();
    assert_eq!(second.kind, Present::Hold);
    assert_eq!(second.key, 3);
    assert_eq!(
        second.token, first.token,
        "a hold re-presents under the live token, or the buffer on screen \
         would look superseded and be released out from under the display"
    );
}

/// Holding forever never accumulates outstanding tokens.
///
/// A layer that is idle for a minute at 60Hz holds 3600 times. One
/// outstanding entry per hold would be a slow leak with no upper bound.
#[test]
fn idle_holds_do_not_accumulate() {
    let mut p = RingPresenter::new(None);
    p.submit(0, None, &[]);
    let token = p.acquire().token;
    for _ in 0..100 {
        assert_eq!(p.acquire().kind, Present::Hold);
    }
    assert_eq!(p.outstanding.len(), 1, "one live token, however many holds");
    assert_eq!(p.release(token), None, "still on screen");
}

/// A buffer is released only once something newer replaces it.
#[test]
fn a_buffer_is_released_when_superseded() {
    let mut p = RingPresenter::new(None);
    p.submit(0, None, &[]);
    let first = p.acquire().token;
    assert_eq!(
        p.release(first),
        None,
        "releasing the buffer on screen would race the producer into \
         overwriting live scanout"
    );

    p.submit(1, None, &[]);
    let second = p.acquire().token;
    assert_ne!(second, first);
    assert_eq!(p.release(first), Some(0), "slot 0 is now off screen");
    assert_eq!(p.release(first), None, "and is not released twice");
    assert_eq!(p.release(second), None, "the new one is still up");
}

/// The sentinel token releases nothing.
#[test]
fn the_sentinel_token_releases_nothing() {
    let mut p = RingPresenter::new(None);
    assert_eq!(p.release(0), None);
}

/// A buffer stays referenced while on screen or awaiting release.
#[test]
fn a_buffer_is_referenced_until_retired() {
    let mut p = RingPresenter::new(None);
    p.submit(5, None, &[]);
    let first = p.acquire().token;
    assert!(p.is_referenced(5));

    p.submit(6, None, &[]);
    p.acquire();
    assert!(p.is_referenced(5), "off screen but not yet retired");
    assert!(p.is_referenced(6));

    assert_eq!(p.release(first), Some(5));
    assert!(!p.is_referenced(5), "retired, so a pool may now evict it");
}

/// Submitting twice before a vblank presents the newer frame.
///
/// A producer outrunning the display should show its newest frame, not work
/// through a backlog it will never catch up on.
#[test]
fn a_second_submit_replaces_an_unacquired_first() {
    let mut p = RingPresenter::new(None);
    p.submit(1, None, &[]);
    p.submit(2, None, &[]);
    let out = p.acquire();
    assert_eq!(out.key, 2);
    assert_eq!(p.acquire().kind, Present::Hold, "only one frame was queued");
}

/// Damage replaces rather than unions.
#[test]
fn damage_replaces_across_submits() {
    let mut p = RingPresenter::new(None);
    p.submit(0, None, &[rect(0, 0), rect(8, 0)]);
    p.submit(0, None, &[rect(16, 0)]);
    let out = p.acquire();
    assert_eq!(out.damage, vec![rect(16, 0)]);
}

/// Too much damage degrades to whole-frame.
///
/// Truncating would under-report the dirty area, and the rectangles left
/// out would keep whatever the previous frame had -- visible as stale
/// patches. Whole-frame is slower and correct.
#[test]
fn over_cap_damage_becomes_whole_frame() {
    let mut p = RingPresenter::new(None);
    let many: Vec<DamageRect> = (0..=MAX_DAMAGE)
        .map(|i| rect(i32::try_from(i).expect("small") * 8, 0))
        .collect();
    p.submit(0, None, &many);
    let out = p.acquire();
    assert!(
        out.damage.is_empty(),
        "an over-cap list must degrade to whole-frame, not truncate to \
         {MAX_DAMAGE}"
    );
}

/// A reset drops everything, including what is on screen.
#[test]
fn a_reset_forgets_the_scanning_buffer() {
    let mut p = RingPresenter::new(None);
    p.submit(4, None, &[]);
    p.acquire();
    assert_eq!(p.scanning_key(), Some(4));

    p.reset();

    assert_eq!(p.scanning_key(), None);
    assert!(!p.is_referenced(4));
    assert_eq!(
        p.acquire().kind,
        Present::Nothing,
        "after a resume nothing is on screen to hold, so there is nothing \
         to present until the producer submits again"
    );
}

/// Tokens skip the sentinel when the counter wraps.
///
/// Reaching zero would hand out a token `release` ignores, and that
/// buffer would never be handed back -- the producer's ring would starve one
/// slot short, permanently.
#[test]
fn a_wrapping_token_skips_the_sentinel() {
    let mut p = RingPresenter::new(None);
    p.next_token = u64::MAX;
    p.submit(0, None, &[]);
    let out = p.acquire();
    assert_ne!(out.token, 0, "the sentinel must be skipped on wrap");
    assert_eq!(out.token, 1);
}

#[test]
fn without_a_deadline_the_fence_is_handed_over() {
    let mut p = RingPresenter::new(None);
    p.submit(0, Some(SyncFence::from_owned(5)), &[]);
    assert_eq!(p.fence_wait(), None, "nobody waits here");
    let out = p.acquire();
    assert_eq!(out.fence, Some(SyncFence::from_owned(5)));
    assert_eq!(p.acquire().fence, None, "a hold carries no fence");
}

#[test]
fn a_missed_deadline_drops_the_frame_and_keeps_its_damage() {
    let mut p = RingPresenter::new(Some(Duration::from_millis(4)));
    assert_eq!(p.fence_deadline(), Some(Duration::from_millis(4)));
    p.submit(0, None, &[]);
    p.acquire();

    p.submit(1, Some(SyncFence::from_owned(5)), &[rect(0, 0)]);
    let wait = p.fence_wait().expect("a fenced frame is waited for");
    assert_eq!(wait.fd, Some(5));
    p.note_fence_wait(false);
    let held = p.acquire();
    assert_eq!((held.kind, held.key), (Present::Hold, 0));

    p.submit(2, Some(SyncFence::from_owned(6)), &[rect(8, 0)]);
    p.note_fence_wait(true);
    let shown = p.acquire();
    assert_eq!((shown.kind, shown.key), (Present::Fresh, 2));
    assert_eq!(shown.fence, None, "it has been waited for");
    assert_eq!(shown.damage.len(), 2, "what the dropped frame dirtied is owed");
    assert!(shown.damage.contains(&rect(0, 0)) && shown.damage.contains(&rect(8, 0)));

    p.submit(3, Some(SyncFence::from_owned(7)), &[rect(16, 0)]);
    p.note_fence_wait(true);
    assert_eq!(p.acquire().damage, vec![rect(16, 0)], "and paid only once");
}

#[test]
fn a_dropped_whole_frame_stays_whole() {
    let mut p = RingPresenter::new(Some(Duration::from_millis(4)));
    p.submit(0, Some(SyncFence::from_owned(5)), &[]);
    p.note_fence_wait(false);
    assert_eq!(p.acquire().kind, Present::Nothing);
    p.submit(1, None, &[rect(0, 0)]);
    assert!(p.acquire().damage.is_empty(), "empty is the whole frame");
}

#[test]
fn a_short_deadline_rounds_up_to_a_millisecond() {
    let wait = |deadline: Duration| {
        let mut p = RingPresenter::new(Some(deadline));
        p.submit(0, Some(SyncFence::new()), &[]);
        p.fence_wait().expect("a wait")
    };
    assert_eq!(
        wait(Duration::from_micros(12_500)),
        FenceWait {
            fd: None,
            nanos: 12_500_000
        }
    );
    assert_eq!(wait(Duration::from_micros(500)).nanos, 1_000_000);
    assert_eq!(wait(Duration::ZERO).nanos, 0);
}

#[test]
fn a_replaced_fence_comes_back() {
    let mut p = RingPresenter::new(None);
    assert_eq!(p.submit(0, Some(SyncFence::from_owned(5)), &[]), None);
    assert_eq!(p.submit(1, None, &[]), Some(SyncFence::from_owned(5)));
    p.acquire();
    assert_eq!(p.outstanding, vec![Outstanding { token: 1, key: 1 }]);
}

#[test]
fn a_fence_waited_for_is_kept_to_be_closed() {
    let mut p = RingPresenter::new(Some(Duration::from_millis(5)));
    p.submit(0, Some(SyncFence::from_owned(5)), &[]);
    p.note_fence_wait(true);
    p.acquire();
    assert_eq!(p.take_spent(), vec![SyncFence::from_owned(5)]);
    assert!(p.take_spent().is_empty());
}

#[test]
fn tokens_are_new_and_give_their_buffer_back_once() {
    let mut p = RingPresenter::new(None);
    let mut tokens = Vec::new();
    for key in 10..13 {
        p.submit(key, None, &[]);
        let shown = p.acquire();
        assert_eq!((shown.kind, shown.key), (Present::Fresh, key));
        assert!(!tokens.contains(&shown.token));
        tokens.push(shown.token);
    }
    assert_eq!(p.release(tokens[2]), None, "on screen");
    assert_eq!(p.release(tokens[1]), Some(11));
    assert_eq!(p.release(tokens[0]), Some(10));
    assert_eq!(p.release(tokens[1]), None, "already back");
    assert_eq!(p.release(tokens[0]), None);
}
