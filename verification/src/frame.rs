//! What a commit does to scene state once the kernel has answered.

use vstd::prelude::*;
use crate::planes::LayerId;
use crate::release::{rotated, stamped, Acquisition, ReleaseQueue, ReleaseReason, Released, ScenePendingFlip};
use crate::report::CommitReport;
use crate::sync::SyncFence;

verus! {

/// What the kernel said about a commit.
#[derive(Debug, Clone, Copy, PartialEq, Eq, Structural)]
pub enum KernelResult {
    /// The kernel took it. For a real commit a flip is on its way.
    Applied,
    /// Rejected because the caller is not DRM master: the only failure that
    /// suspends the scene.
    NotMaster,
    /// Rejected for any other reason. The frame heals on the next one.
    Rejected,
}

/// What one commit was.
#[derive(Debug, Clone, Copy, PartialEq, Eq, Structural)]
pub enum CommitKind {
    /// A real commit.
    Real {
        /// Whether a page-flip event was armed.
        arms_flip: bool,
    },
    /// A test commit, which applies nothing to hardware.
    Test,
}

/// What the scene must do after a commit.
#[derive(Debug)]
pub struct FrameOutcome {
    /// Buffers to hand back to their sources, and why.
    pub released: Released,
    /// The report for this commit.
    pub report: CommitReport,
    /// Whether the scene is now suspended.
    pub suspended: bool,
    /// Whether the cached plane assignment must be dropped.
    pub invalidate_allocation: bool,
}

/// The state a commit reconciles: the release ring, the armed-flip tripwire,
/// and whether the scene is suspended.
#[derive(Debug)]
pub struct FrameLifecycle {
    /// The buffers in flight.
    pub releases: ReleaseQueue,
    /// Whether a flip is outstanding.
    pub pending_flip: ScenePendingFlip,
    /// Whether the scene is short-circuiting commits.
    pub suspended: bool,
    /// Whether a fast-path rejection has been seen.
    pub warned_fast_path_reject: bool,
}

/// Whether a commit applied something to hardware.
pub open spec fn applied(kind: CommitKind, result: KernelResult) -> bool {
    kind is Real && result == KernelResult::Applied
}

/// Whether the kernel refused a frame whose test commit was skipped.
pub open spec fn fast_path_refused(
    kind: CommitKind,
    result: KernelResult,
    report: CommitReport,
) -> bool {
    kind is Real && result == KernelResult::Rejected && report.fb_delta_fast_path
}

impl FrameLifecycle {
    /// A fresh lifecycle with nothing in flight.
    pub fn new() -> (lifecycle: Self)
        ensures
            lifecycle.releases.held().len() == 0,
            !lifecycle.pending_flip.armed,
            !lifecycle.suspended,
            !lifecycle.warned_fast_path_reject,
    {
        FrameLifecycle {
            releases: ReleaseQueue::new(),
            pending_flip: ScenePendingFlip::new(),
            suspended: false,
            warned_fast_path_reject: false,
        }
    }

    /// Whether the scene is suspended.
    pub fn is_suspended(&self) -> (suspended: bool)
        ensures
            suspended == self.suspended,
    {
        self.suspended
    }

    /// Whether a page-flip event is armed and undispatched.
    pub fn has_pending_flip(&self) -> (pending: bool)
        ensures
            pending == self.pending_flip.armed,
    {
        self.pending_flip.is_armed()
    }

    /// How many buffers are held in flight.
    pub fn buffers_in_flight(&self) -> (count: usize)
        requires
            self.releases.held().len() <= usize::MAX,
        ensures
            count == self.releases.held().len(),
    {
        self.releases.in_flight()
    }

    /// Record that the armed page-flip event was dispatched.
    pub fn flip_landed(&mut self)
        ensures
            *final(self) == (FrameLifecycle {
                pending_flip: ScenePendingFlip { armed: false },
                ..*old(self)
            }),
    {
        self.pending_flip.landed();
    }

    /// Lift a suspension after the session resumes.
    pub fn resume(&mut self)
        ensures
            *final(self) == (FrameLifecycle { suspended: false, ..*old(self) }),
    {
        self.suspended = false;
    }

    /// Reconcile scene state with the kernel's answer.
    ///
    /// Success on a real commit rotates the release ring and returns the buffers
    /// two commits deep. Any failure, and any test commit, returns this frame's
    /// buffers at once and leaves the ring alone. Only lost master suspends. A
    /// refused fast-path frame says the cached assignment can no longer be
    /// trusted. A test commit changes nothing.
    pub fn finalize<F: Fn(LayerId) -> bool, D: Fn(i32) -> Option<i32>>(
        &mut self,
        kind: CommitKind,
        result: KernelResult,
        acquisitions: Vec<Acquisition>,
        report: CommitReport,
        release_fence: Option<&SyncFence>,
        wants_fence: F,
        duplicate: D,
    ) -> (outcome: FrameOutcome)
        requires
            forall|layer: LayerId| call_requires(wants_fence, (layer,)),
            forall|fd: i32| call_requires(duplicate, (fd,)),
        ensures
            if applied(kind, result) {
                &&& outcome.released.reason == ReleaseReason::Retired
                &&& rotated(
                    old(self).releases,
                    acquisitions@,
                    final(self).releases,
                    outcome.released.acquisitions@,
                )
                &&& forall|i: int|
                    0 <= i < old(self).releases.previous@.len() ==> stamped(
                        old(self).releases.previous@[i],
                        #[trigger] final(self).releases.two_ago@[i],
                        match release_fence {
                            Some(fence) => Some(*fence),
                            None => None,
                        },
                        wants_fence,
                        duplicate,
                    )
            } else {
                &&& outcome.released.acquisitions == acquisitions
                &&& outcome.released.reason == if kind is Test {
                    ReleaseReason::TestOnly
                } else {
                    ReleaseReason::CommitFailed
                }
                &&& final(self).releases == old(self).releases
            },
            final(self).pending_flip.armed == (old(self).pending_flip.armed || (applied(kind, result)
                && kind->arms_flip)),
            final(self).suspended == (old(self).suspended || (kind is Real && result
                == KernelResult::NotMaster)),
            outcome.suspended == final(self).suspended,
            outcome.invalidate_allocation == fast_path_refused(kind, result, report),
            final(self).warned_fast_path_reject == (old(self).warned_fast_path_reject
                || fast_path_refused(kind, result, report)),
            outcome.report == (CommitReport {
                fb_delta_fast_path: report.fb_delta_fast_path && !fast_path_refused(
                    kind,
                    result,
                    report,
                ),
                ..report
            }),
    {
        let mut report = report;
        let arms_flip: bool = match kind {
            CommitKind::Test => {
                return FrameOutcome {
                    released: self.releases.test_committed(acquisitions),
                    report,
                    suspended: self.suspended,
                    invalidate_allocation: false,
                };
            },
            CommitKind::Real { arms_flip } => arms_flip,
        };
        match result {
            KernelResult::Applied => {
                if arms_flip {
                    self.pending_flip.arm();
                }
                let released = self.releases.commit_succeeded(
                    acquisitions,
                    release_fence,
                    wants_fence,
                    duplicate,
                );
                FrameOutcome {
                    released,
                    report,
                    suspended: self.suspended,
                    invalidate_allocation: false,
                }
            },
            KernelResult::NotMaster => {
                self.suspended = true;
                FrameOutcome {
                    released: self.releases.commit_failed(acquisitions),
                    report,
                    suspended: true,
                    invalidate_allocation: false,
                }
            },
            KernelResult::Rejected => {
                let invalidate: bool = report.fb_delta_fast_path;
                if invalidate {
                    self.warned_fast_path_reject = true;
                    report.fb_delta_fast_path = false;
                }
                FrameOutcome {
                    released: self.releases.commit_failed(acquisitions),
                    report,
                    suspended: self.suspended,
                    invalidate_allocation: invalidate,
                }
            },
        }
    }

    /// Whether a fast-path rejection has been seen already.
    pub fn has_warned_fast_path_reject(&self) -> (warned: bool)
        ensures
            warned == self.warned_fast_path_reject,
    {
        self.warned_fast_path_reject
    }

    /// Hand back every held buffer, without waiting on the kernel and without
    /// landing an armed flip.
    pub fn drain(&mut self) -> (released: Released)
        ensures
            released.reason == ReleaseReason::Drained,
            released.acquisitions@ == old(self).releases.held(),
            final(self).releases.held().len() == 0,
            *final(self) == (FrameLifecycle { releases: final(self).releases, ..*old(self) }),
    {
        self.releases.drain()
    }
}

impl Default for FrameLifecycle {
    fn default() -> (lifecycle: Self)
        ensures
            lifecycle.releases.held().len() == 0,
            !lifecycle.pending_flip.armed,
            !lifecycle.suspended,
            !lifecycle.warned_fast_path_reject,
    {
        FrameLifecycle::new()
    }
}

/// Accounting for one build pass's acquire loop.
#[derive(Debug, Clone, Copy, PartialEq, Eq, Structural)]
pub struct AcquireTally {
    /// Layers that produced a buffer.
    pub acquired: usize,
    /// Layers whose source had no frame.
    pub skipped_no_frame: usize,
}

impl AcquireTally {
    /// Fold one source's outcome into the tally. Returns whether the layer
    /// contributed a buffer.
    pub fn record(&mut self, acquired: bool) -> (contributed: bool)
        requires
            acquired ==> old(self).acquired < usize::MAX,
            !acquired ==> old(self).skipped_no_frame < usize::MAX,
        ensures
            contributed == acquired,
            final(self).acquired == old(self).acquired + if acquired {
                1int
            } else {
                0
            },
            final(self).skipped_no_frame == old(self).skipped_no_frame + if acquired {
                0int
            } else {
                1
            },
    {
        if acquired {
            self.acquired += 1;
        } else {
            self.skipped_no_frame += 1;
        }
        acquired
    }

    /// How many layers the loop considered.
    pub fn considered(&self) -> (count: usize)
        requires
            self.acquired + self.skipped_no_frame <= usize::MAX,
        ensures
            count == self.acquired + self.skipped_no_frame,
    {
        self.acquired + self.skipped_no_frame
    }
}

impl Default for AcquireTally {
    fn default() -> (tally: Self)
        ensures
            tally.acquired == 0,
            tally.skipped_no_frame == 0,
    {
        AcquireTally { acquired: 0, skipped_no_frame: 0 }
    }
}

/// Only a real commit that the kernel took applies anything, and only a refused
/// real frame that skipped its test says that the cached assignment is stale: a
/// lost master says nothing about it.
pub proof fn law_only_real_commits_have_effect(
    kind: CommitKind,
    result: KernelResult,
    report: CommitReport,
)
    ensures
        kind is Test ==> !applied(kind, result) && !fast_path_refused(kind, result, report),
        kind is Real && result is Applied ==> applied(kind, result) && !fast_path_refused(
            kind,
            result,
            report,
        ),
        kind is Real && result is NotMaster ==> !applied(kind, result) && !fast_path_refused(
            kind,
            result,
            report,
        ),
        kind is Real && result is Rejected ==> !applied(kind, result) && fast_path_refused(
            kind,
            result,
            report,
        ) == report.fb_delta_fast_path,
{
}

} // verus!
