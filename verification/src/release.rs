//! Deferred buffer release.
//!
//! A buffer goes back to its source only once the page flip that stops scanning
//! it out has completed: two commits deep, never when the commit returns.

use vstd::prelude::*;
use crate::planes::LayerId;
use crate::source::AcquiredBuffer;
use crate::sync::SyncFence;

verus! {

/// One buffer held on behalf of a layer.
#[derive(Debug)]
pub struct Acquisition {
    /// Which layer acquired it.
    pub layer: LayerId,
    /// The buffer itself.
    pub buffer: AcquiredBuffer,
    /// The out-fence of the commit that displaced it, stamped on when it leaves
    /// the screen.
    pub release_fence: Option<SyncFence>,
}

impl Acquisition {
    /// Hold `buffer` on behalf of `layer`.
    pub fn new(layer: LayerId, buffer: AcquiredBuffer) -> (acquisition: Self)
        ensures
            acquisition == (Acquisition { layer, buffer, release_fence: None }),
    {
        Acquisition { layer, buffer, release_fence: None }
    }
}

/// Why a set of buffers is being handed back.
#[derive(Debug, Clone, Copy, PartialEq, Eq, Structural)]
pub enum ReleaseReason {
    /// They stopped being scanned out: a later commit's flip completed.
    Retired,
    /// The commit that would have shown them was rejected.
    CommitFailed,
    /// A test commit, which applies nothing to hardware.
    TestOnly,
    /// The scene is being torn down, paused, or rebound.
    Drained,
}

/// The buffers to hand back, and why.
#[derive(Debug)]
pub struct Released {
    /// The buffers, oldest first.
    pub acquisitions: Vec<Acquisition>,
    /// Why they are being returned.
    pub reason: ReleaseReason,
}

impl Released {
    /// Whether nothing is being returned.
    pub fn is_empty(&self) -> (empty: bool)
        ensures
            empty == (self.acquisitions@.len() == 0),
    {
        self.acquisitions.len() == 0
    }

    /// How many buffers are being returned.
    pub fn len(&self) -> (len: usize)
        ensures
            len == self.acquisitions@.len(),
    {
        self.acquisitions.len()
    }
}

/// The two-deep ring of in-flight acquisitions.
#[derive(Debug)]
pub struct ReleaseQueue {
    /// The last committed frame: on screen now.
    pub previous: Vec<Acquisition>,
    /// The frame before it: off screen, returned by the next successful commit.
    pub two_ago: Vec<Acquisition>,
}

/// How a buffer on screen relates to itself after a commit carrying `fence`.
///
/// It gains a duplicate of the fence where its layer wants one, the fence holds
/// a descriptor and the duplication succeeded; otherwise it is as it was.
pub open spec fn stamped<F: Fn(LayerId) -> bool, D: Fn(i32) -> Option<i32>>(
    before: Acquisition,
    after: Acquisition,
    fence: Option<SyncFence>,
    wants: F,
    duplicate: D,
) -> bool {
    match fence {
        None => after == before,
        Some(fence) => exists|wanted: bool| #[trigger]
            call_ensures(wants, (before.layer,), wanted) && if wanted && fence.fd is Some {
                exists|copy: Option<i32>| #[trigger]
                    call_ensures(duplicate, (fence.fd->0,), copy) && after == match copy {
                        Some(_) => Acquisition {
                            release_fence: Some(SyncFence { fd: copy }),
                            ..before
                        },
                        None => before,
                    }
            } else {
                after == before
            },
    }
}

/// Whether two runs of acquisitions hold the same buffers for the same layers,
/// in the same order.
pub open spec fn same_buffers(a: Seq<Acquisition>, b: Seq<Acquisition>) -> bool {
    a.len() == b.len() && forall|i: int|
        0 <= i < a.len() ==> (#[trigger] a[i]).layer == b[i].layer && a[i].buffer == b[i].buffer
}

/// One successful commit of `current`, as it moves the ring.
pub open spec fn rotated(
    before: ReleaseQueue,
    current: Seq<Acquisition>,
    after: ReleaseQueue,
    released: Seq<Acquisition>,
) -> bool {
    released == before.two_ago@ && after.previous@ == current && same_buffers(
        before.previous@,
        after.two_ago@,
    )
}

impl ReleaseQueue {
    /// An empty queue.
    pub fn new() -> (queue: Self)
        ensures
            queue.previous@.len() == 0,
            queue.two_ago@.len() == 0,
    {
        ReleaseQueue { previous: Vec::new(), two_ago: Vec::new() }
    }

    /// The buffers held, oldest first.
    pub open spec fn held(&self) -> Seq<Acquisition> {
        self.two_ago@ + self.previous@
    }

    /// How many buffers are held in flight.
    pub fn in_flight(&self) -> (count: usize)
        requires
            self.held().len() <= usize::MAX,
        ensures
            count == self.held().len(),
    {
        self.previous.len() + self.two_ago.len()
    }

    /// Whether no buffer is held.
    pub fn is_empty(&self) -> (empty: bool)
        ensures
            empty == (self.held().len() == 0),
    {
        self.previous.len() == 0 && self.two_ago.len() == 0
    }

    /// Record a **successful real commit** and return the buffers it retired.
    ///
    /// The flip just armed displaces the last frame, so the one before it has
    /// finished scanning out and goes back; this frame's buffers stay held.
    /// `release_fence` signals when the buffers now on screen leave it, so it is
    /// stamped onto those. `wants_fence` says which layers want it and
    /// `duplicate` makes each its own descriptor.
    pub fn commit_succeeded<F: Fn(LayerId) -> bool, D: Fn(i32) -> Option<i32>>(
        &mut self,
        current: Vec<Acquisition>,
        release_fence: Option<&SyncFence>,
        wants_fence: F,
        duplicate: D,
    ) -> (released: Released)
        requires
            forall|layer: LayerId| call_requires(wants_fence, (layer,)),
            forall|fd: i32| call_requires(duplicate, (fd,)),
        ensures
            released.reason == ReleaseReason::Retired,
            released.acquisitions@ == old(self).two_ago@,
            rotated(*old(self), current@, *final(self), released.acquisitions@),
            final(self).previous@ == current@,
            final(self).two_ago@.len() == old(self).previous@.len(),
            forall|i: int|
                0 <= i < old(self).previous@.len() ==> stamped(
                    old(self).previous@[i],
                    #[trigger] final(self).two_ago@[i],
                    match release_fence {
                        Some(fence) => Some(*fence),
                        None => None,
                    },
                    wants_fence,
                    duplicate,
                ),
    {
        let ghost on_screen = self.previous@;
        if let Some(fence) = release_fence {
            let mut i: usize = 0;
            while i < self.previous.len()
                invariant
                    0 <= i <= self.previous@.len(),
                    self.previous@.len() == on_screen.len(),
                    self.two_ago@ == old(self).two_ago@,
                    forall|layer: LayerId| call_requires(wants_fence, (layer,)),
                    forall|fd: i32| call_requires(duplicate, (fd,)),
                    forall|j: int|
                        0 <= j < i ==> stamped(
                            on_screen[j],
                            #[trigger] self.previous@[j],
                            Some(*fence),
                            wants_fence,
                            duplicate,
                        ),
                    forall|j: int|
                        i <= j < on_screen.len() ==> #[trigger] self.previous@[j] == on_screen[j],
                decreases self.previous@.len() - i,
            {
                let ghost before = self.previous@;
                let wanted: bool = wants_fence(self.previous[i].layer);
                let mut copy: Option<i32> = None;
                if wanted {
                    if let Some(fd) = fence.as_fd() {
                        copy = duplicate(fd);
                        if let Some(own) = copy {
                            self.previous[i].release_fence = Some(SyncFence::from_owned(own));
                        }
                    }
                }
                proof {
                    assert(stamped(
                        on_screen[i as int],
                        self.previous@[i as int],
                        Some(*fence),
                        wants_fence,
                        duplicate,
                    )) by {
                        assert(call_ensures(wants_fence, (on_screen[i as int].layer,), wanted));
                        if !(wanted && fence.fd is Some) {
                            assert(self.previous@[i as int] == on_screen[i as int]);
                        } else {
                            assert(call_ensures(duplicate, (fence.fd->0,), copy));
                        }
                    }
                    assert forall|j: int| 0 <= j < i implies #[trigger] self.previous@[j]
                        == before[j] by {}
                }
                i += 1;
            }
        }
        let mut retired: Vec<Acquisition> = Vec::new();
        core::mem::swap(&mut retired, &mut self.two_ago);
        core::mem::swap(&mut self.two_ago, &mut self.previous);
        self.previous = current;
        proof {
            assert forall|i: int| 0 <= i < on_screen.len() implies (#[trigger] on_screen[i]).layer
                == self.two_ago@[i].layer && on_screen[i].buffer == self.two_ago@[i].buffer by {
                assert(release_fence is Some ==> stamped(
                    on_screen[i],
                    self.two_ago@[i],
                    Some(*release_fence->0),
                    wants_fence,
                    duplicate,
                ));
            }
        }
        Released { acquisitions: retired, reason: ReleaseReason::Retired }
    }

    /// Record a **failed** commit and return this frame's buffers at once.
    ///
    /// What is on screen is not disturbed: a rejection displaced nothing.
    pub fn commit_failed(&mut self, current: Vec<Acquisition>) -> (released: Released)
        ensures
            released == (Released {
                acquisitions: current,
                reason: ReleaseReason::CommitFailed,
            }),
            *final(self) == *old(self),
    {
        Released { acquisitions: current, reason: ReleaseReason::CommitFailed }
    }

    /// Record a **test** commit and return its buffers at once.
    pub fn test_committed(&mut self, current: Vec<Acquisition>) -> (released: Released)
        ensures
            released == (Released { acquisitions: current, reason: ReleaseReason::TestOnly }),
            *final(self) == *old(self),
    {
        Released { acquisitions: current, reason: ReleaseReason::TestOnly }
    }

    /// Return **everything** held, oldest first, without waiting on the kernel.
    pub fn drain(&mut self) -> (released: Released)
        ensures
            released.reason == ReleaseReason::Drained,
            released.acquisitions@ == old(self).held(),
            final(self).held().len() == 0,
    {
        let mut acquisitions: Vec<Acquisition> = Vec::new();
        core::mem::swap(&mut acquisitions, &mut self.two_ago);
        acquisitions.append(&mut self.previous);
        Released { acquisitions, reason: ReleaseReason::Drained }
    }
}

impl Default for ReleaseQueue {
    fn default() -> (queue: Self)
        ensures
            queue.held().len() == 0,
    {
        ReleaseQueue::new()
    }
}

/// Tracks whether a commit armed a page-flip event that has not been
/// dispatched.
///
/// Tearing a scene down while one is armed destroys a framebuffer the flip
/// still references.
#[derive(Debug, Clone, Copy, PartialEq, Eq, Structural)]
pub struct ScenePendingFlip {
    /// Whether a flip is outstanding.
    pub armed: bool,
}

impl ScenePendingFlip {
    /// Nothing armed.
    pub fn new() -> (pending: Self)
        ensures
            !pending.armed,
    {
        ScenePendingFlip { armed: false }
    }

    /// Record that a commit armed a page-flip event.
    pub fn arm(&mut self)
        ensures
            final(self).armed,
    {
        self.armed = true;
    }

    /// Record that the event was dispatched.
    pub fn landed(&mut self)
        ensures
            !final(self).armed,
    {
        self.armed = false;
    }

    /// Whether a flip is still outstanding.
    pub fn is_armed(&self) -> (armed: bool)
        ensures
            armed == self.armed,
    {
        self.armed
    }
}

impl Default for ScenePendingFlip {
    fn default() -> (pending: Self)
        ensures
            !pending.armed,
    {
        ScenePendingFlip { armed: false }
    }
}

// --- laws --------------------------------------------------------------------

/// A frame's buffers go back two successful commits later, all of them and in
/// order, and not before: neither the commit that shows them nor the next one
/// returns any of them.
pub proof fn law_release_is_two_commits_deep(
    q0: ReleaseQueue,
    q1: ReleaseQueue,
    q2: ReleaseQueue,
    q3: ReleaseQueue,
    frame: Seq<Acquisition>,
    second: Seq<Acquisition>,
    third: Seq<Acquisition>,
    released1: Seq<Acquisition>,
    released2: Seq<Acquisition>,
    released3: Seq<Acquisition>,
)
    requires
        rotated(q0, frame, q1, released1),
        rotated(q1, second, q2, released2),
        rotated(q2, third, q3, released3),
    ensures
        released1 == q0.two_ago@,
        same_buffers(q0.previous@, released2),
        same_buffers(frame, released3),
{
}

/// A successful commit loses no buffer and invents none: what was held and what
/// came in is what went back and what is held now, in order.
pub proof fn law_no_buffer_is_lost(
    before: ReleaseQueue,
    current: Seq<Acquisition>,
    after: ReleaseQueue,
    released: Seq<Acquisition>,
)
    requires
        rotated(before, current, after, released),
    ensures
        same_buffers(before.held() + current, released + after.held()),
{
    let a = before.held() + current;
    let b = released + after.held();
    let n = before.two_ago@.len() as int;
    let m = before.previous@.len() as int;
    assert forall|i: int| 0 <= i < a.len() implies (#[trigger] a[i]).layer == b[i].layer
        && a[i].buffer == b[i].buffer by {
        if n <= i < n + m {
            assert(before.previous@[i - n].layer == after.two_ago@[i - n].layer);
            assert(a[i] == before.previous@[i - n]);
            assert(b[i] == after.two_ago@[i - n]);
        }
    }
}

/// The ring never holds more than two frames' worth of buffers.
pub proof fn law_ring_holds_two_frames(
    before: ReleaseQueue,
    first: Seq<Acquisition>,
    middle: ReleaseQueue,
    second: Seq<Acquisition>,
    after: ReleaseQueue,
    released1: Seq<Acquisition>,
    released2: Seq<Acquisition>,
)
    requires
        rotated(before, first, middle, released1),
        rotated(middle, second, after, released2),
    ensures
        after.held().len() == first.len() + second.len(),
{
}

/// A successful commit puts its own buffers on screen and hands back exactly what
/// was two commits deep; what was on screen moves down, buffer for buffer.
pub proof fn law_a_commit_moves_the_ring_by_one(
    before: ReleaseQueue,
    current: Seq<Acquisition>,
    after: ReleaseQueue,
    released: Seq<Acquisition>,
    i: int,
)
    requires
        rotated(before, current, after, released),
    ensures
        after.previous@ == current,
        released == before.two_ago@,
        after.two_ago@.len() == before.previous@.len(),
        0 <= i < before.previous@.len() ==> after.two_ago@[i].layer == before.previous@[i].layer
            && after.two_ago@[i].buffer == before.previous@[i].buffer,
        before.held() == before.two_ago@ + before.previous@,
{
}

/// A fence a commit carries reaches the buffers it displaces: each gains a copy
/// of its own where its layer wants one, and keeps its layer and buffer anyway.
pub proof fn law_a_displaced_buffer_keeps_itself<F: Fn(LayerId) -> bool, D: Fn(i32) -> Option<i32>>(
    before: Acquisition,
    after: Acquisition,
    fence: Option<SyncFence>,
    wants: F,
    duplicate: D,
)
    requires
        stamped(before, after, fence, wants, duplicate),
    ensures
        after.layer == before.layer,
        after.buffer == before.buffer,
        fence is None ==> after.release_fence == before.release_fence,
        after.release_fence != before.release_fence ==> after.release_fence is Some && exists|
            copy: Option<i32>,
        |
            #![trigger call_ensures(duplicate, (fence->0.fd->0,), copy)]
            call_ensures(duplicate, (fence->0.fd->0,), copy) && after.release_fence->0.fd == copy
                && copy is Some,
{
}

/// A displaced buffer gains a copy of the commit's fence where its layer wants
/// one and the copy could be made, and is otherwise left exactly as it was.
pub proof fn law_a_fence_goes_to_those_that_want_it<
    F: Fn(LayerId) -> bool,
    D: Fn(i32) -> Option<i32>,
>(
    before: Acquisition,
    after: Acquisition,
    fence: SyncFence,
    wants: F,
    duplicate: D,
)
    requires
        stamped(before, after, Some(fence), wants, duplicate),
    ensures
        fence.fd is None ==> after == before,
        (forall|wanted: bool| #[trigger] call_ensures(wants, (before.layer,), wanted) ==> !wanted)
            ==> after == before,
        (forall|copy: Option<i32>| #[trigger]
            call_ensures(duplicate, (fence.fd->0,), copy) ==> copy is None) ==> after == before,
        fence.fd is Some && (forall|wanted: bool| #[trigger]
            call_ensures(wants, (before.layer,), wanted) ==> wanted) && (forall|
            copy: Option<i32>,
        | #[trigger]
            call_ensures(duplicate, (fence.fd->0,), copy) ==> copy is Some) ==> {
            &&& after.release_fence is Some
            &&& after.release_fence->0.fd is Some
            &&& call_ensures(duplicate, (fence.fd->0,), after.release_fence->0.fd)
            &&& after.layer == before.layer
            &&& after.buffer == before.buffer
        },
{
}

} // verus!
