//! Fences, with an eventfd standing in for a `sync_file`: a wait polls for
//! readability, and an eventfd that has been written to is readable.

use drmkit::errno::Errno;
use drmkit::sync::{
    poll_timeout, Merged, PollTimeout, Polled, SyncError, SyncErrorKind, SyncFence,
};
use rustix::event::{eventfd, poll, EventfdFlags, PollFd, PollFlags, Timespec};
use rustix::fd::{AsFd, AsRawFd, OwnedFd};
use std::time::Duration;

/// An unsignaled eventfd, standing in for a pending fence.
fn pending_fence_fd() -> OwnedFd {
    eventfd(0, EventfdFlags::CLOEXEC).expect("eventfd")
}

/// An eventfd with a count already written, standing in for a signaled fence.
fn signaled_fence_fd() -> OwnedFd {
    eventfd(1, EventfdFlags::CLOEXEC).expect("eventfd")
}

/// A duplicate of a descriptor, and the fence that names it.
fn import(fd: &OwnedFd) -> (OwnedFd, SyncFence) {
    let copy = rustix::io::fcntl_dupfd_cloexec(fd.as_fd(), 0).expect("import");
    let fence = SyncFence::import(Ok(copy.as_raw_fd())).expect("import");
    (copy, fence)
}

/// Wait on a fence whose descriptor is at hand.
fn wait(held: &OwnedFd, fence: &SyncFence, timeout: Duration) -> Result<(), SyncError> {
    assert_eq!(fence.wait_target()?, held.as_raw_fd());
    let limit = poll_timeout(timeout);
    let spec = Timespec {
        tv_sec: limit.secs,
        tv_nsec: limit.nanos,
    };
    let mut fds = [PollFd::new(held, PollFlags::IN)];
    fence.wait(match poll(&mut fds, Some(&spec)) {
        Ok(ready) => Polled::Ready(ready),
        Err(errno) => Polled::Failed(Errno {
            raw: errno.raw_os_error(),
        }),
    })
}

#[test]
fn empty_fence_is_invalid_and_unusable() {
    let fence = SyncFence::new();
    assert!(!fence.is_valid());
    assert!(fence.as_fd().is_none());
    assert!(matches!(fence.wait_target(), Err(SyncError::Empty)));
    assert!(matches!(
        fence.wait(Polled::Ready(1)),
        Err(SyncError::Empty)
    ));

    let mut fence = SyncFence::new();
    assert!(matches!(
        fence.merge(SyncFence::new(), Merged::Descriptor(3)),
        Err(SyncError::Empty)
    ));
    assert!(!fence.is_valid());
}

#[test]
fn import_dups_so_the_original_can_close() {
    let original = pending_fence_fd();
    let (held, fence) = import(&original);
    assert!(fence.is_valid());

    let duped_raw = fence.as_fd().expect("fd");
    assert_ne!(
        duped_raw,
        original.as_raw_fd(),
        "import must duplicate, not alias"
    );

    // Close the caller's copy; the fence must remain usable.
    drop(original);
    assert!(fence.is_valid());
    assert!(matches!(
        wait(&held, &fence, Duration::from_millis(1)),
        Err(SyncError::TimedOut)
    ));
}

#[test]
fn move_transfers_the_descriptor_intact() {
    let (_held, source) = import(&pending_fence_fd());
    let raw = source.as_fd().expect("fd");

    let moved = source; // move
    assert!(moved.is_valid());
    assert_eq!(moved.as_fd().expect("fd"), raw);

    let owned = moved.into_owned_fd().expect("descriptor released");
    assert_eq!(owned, raw);
}

#[test]
fn wait_on_signaled_fence_succeeds() {
    let (held, fence) = import(&signaled_fence_fd());
    wait(&held, &fence, Duration::from_secs(1)).expect("a signaled fence must not time out");
}

#[test]
fn wait_times_out_on_pending_fence() {
    let (held, fence) = import(&pending_fence_fd());
    assert!(matches!(
        wait(&held, &fence, Duration::from_millis(10)),
        Err(SyncError::TimedOut)
    ));
}

/// A zero timeout is a poll, not an infinite wait.
#[test]
fn zero_timeout_polls_without_blocking() {
    let (held, signaled) = import(&signaled_fence_fd());
    wait(&held, &signaled, Duration::ZERO).expect("already readable");

    let (held, pending) = import(&pending_fence_fd());
    assert!(matches!(
        wait(&held, &pending, Duration::ZERO),
        Err(SyncError::TimedOut)
    ));
}

#[test]
fn into_owned_fd_transfers_ownership() {
    let (held, fence) = import(&pending_fence_fd());
    let raw = fence.as_fd().expect("fd");

    let owned = fence.into_owned_fd().expect("some");
    assert_eq!(owned, raw);

    // Still open: a second fence can be made from it.
    let (_again, second) = import(&held);
    assert!(second.is_valid());
}

#[test]
fn from_owned_adopts_without_duplicating() {
    let fd = pending_fence_fd();
    let raw = fd.as_raw_fd();

    let fence = SyncFence::from_owned(fd.as_raw_fd());
    assert_eq!(
        fence.as_fd().expect("fd"),
        raw,
        "adopted, not duplicated"
    );
}

#[test]
fn a_merge_replaces_the_descriptor_or_leaves_it() {
    let mut fence = SyncFence::from_owned(4);
    assert_eq!(fence.merge_targets(&SyncFence::from_owned(9)), Ok((4, 9)));
    assert_eq!(
        fence.merge_targets(&SyncFence::default()),
        Err(SyncError::Empty)
    );

    let other = || SyncFence::from_owned(9);
    assert_eq!(
        fence.merge(other(), Merged::Failed(Errno { raw: 25 })),
        Err(SyncError::Io(Errno { raw: 25 }))
    );
    assert_eq!(fence.as_fd(), Some(4));
    assert_eq!(
        fence.merge(other(), Merged::Descriptor(-1)),
        Err(SyncError::MergeReturnedNothing)
    );
    assert_eq!(
        fence.merge(SyncFence::new(), Merged::Descriptor(5)),
        Err(SyncError::Empty)
    );
    assert_eq!(fence.as_fd(), Some(4));
    assert_eq!(fence.merge(other(), Merged::Descriptor(0)), Ok(()));
    assert_eq!(fence.as_fd(), Some(0));
}

#[test]
fn a_descriptor_that_cannot_be_duplicated_is_no_fence() {
    assert_eq!(
        SyncFence::import(Err(Errno { raw: 24 })),
        Err(SyncError::Io(Errno { raw: 24 }))
    );
}

#[test]
fn a_wait_reports_what_the_poll_said() {
    let fence = SyncFence::from_owned(4);
    assert_eq!(fence.wait(Polled::Ready(1)), Ok(()));
    assert_eq!(fence.wait(Polled::Ready(0)), Err(SyncError::TimedOut));
    assert_eq!(
        fence.wait(Polled::Failed(Errno { raw: 4 })),
        Err(SyncError::Io(Errno { raw: 4 }))
    );
}

#[test]
fn a_timeout_is_seconds_and_nanoseconds() {
    assert_eq!(
        poll_timeout(Duration::from_millis(1_500)),
        PollTimeout {
            secs: 1,
            nanos: 500_000_000
        }
    );
    assert_eq!(
        poll_timeout(Duration::from_secs(u64::MAX)),
        PollTimeout {
            secs: i64::MAX,
            nanos: 0
        }
    );
}

#[test]
fn fence_errors_have_kinds() {
    assert_eq!(SyncError::Empty.kind(), SyncErrorKind::InvalidInput);
    assert_eq!(SyncError::TimedOut.kind(), SyncErrorKind::TimedOut);
    assert_eq!(SyncError::MergeReturnedNothing.kind(), SyncErrorKind::Other);
    assert_eq!(
        SyncError::Io(Errno { raw: 9 }).kind(),
        SyncErrorKind::Os(9)
    );
}
